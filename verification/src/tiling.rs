use vstd::prelude::*;

use vstd::arithmetic::div_mod::{
    lemma_div_pos_is_pos,
    lemma_fundamental_div_mod,
    lemma_fundamental_div_mod_converse,
    lemma_mod_bound,
};

use crate::plan::{lemma_sum_prefix_monotonic, lemma_sum_prefix_nonneg, sum_prefix, Plan};

verus! {

/// Replication `r` of source `f` places byte `b` at position `q` of one
/// full pass over the first `k` sources.
pub open spec fn pass_covers(
    sizes: Seq<usize>,
    re: int,
    k: int,
    f: int,
    r: int,
    b: int,
    q: int,
) -> bool {
    &&& 0 <= f < k
    &&& 0 <= r < re
    &&& 0 <= b < sizes[f]
    &&& q == sum_prefix(sizes, f) * re + r * sizes[f] + b
}

/// The schedule places some byte at absolute output position `p`.
pub open spec fn covers(plan: Plan, g: int, f: int, r: int, b: int, p: int) -> bool {
    &&& plan.valid_index(g, f, r, b)
    &&& plan.dest_spec(g, f, r, b) == p
}

/// Every position of one pass is covered by some (source, per-file
/// repeat, byte) triple.
pub proof fn lemma_pass_surjective(sizes: Seq<usize>, re: int, k: int, q: int)
    requires
        re >= 1,
        0 <= k <= sizes.len(),
        0 <= q < sum_prefix(sizes, k) * re,
    ensures
        exists|f: int, r: int, b: int| pass_covers(sizes, re, k, f, r, b, q),
    decreases k,
{
    if k == 0 {
        assert(sum_prefix(sizes, k) * re == 0) by (nonlinear_arith)
            requires
                sum_prefix(sizes, k) == 0,
        ;
    } else {
        let s_prev = sum_prefix(sizes, k - 1);
        lemma_sum_prefix_nonneg(sizes, k - 1);
        if q < s_prev * re {
            let km: int = k - 1;
            lemma_pass_surjective(sizes, re, km, q);
            let (f, r, b) = choose|f: int, r: int, b: int| pass_covers(sizes, re, km, f, r, b, q);
            assert(pass_covers(sizes, re, k, f, r, b, q));
        } else {
            let l = sizes[k - 1] as int;
            let t = q - s_prev * re;
            assert(sum_prefix(sizes, k) == s_prev + l);
            assert(t < l * re) by (nonlinear_arith)
                requires
                    q < (s_prev + l) * re,
                    t == q - s_prev * re,
            ;
            assert(l >= 1) by (nonlinear_arith)
                requires
                    0 <= t,
                    t < l * re,
                    l >= 0,
            ;
            let r = t / l;
            let b = t % l;
            lemma_fundamental_div_mod(t, l);
            lemma_mod_bound(t, l);
            lemma_div_pos_is_pos(t, l);
            assert(r < re) by (nonlinear_arith)
                requires
                    t == l * r + b,
                    0 <= b,
                    t < l * re,
                    l > 0,
            ;
            assert(l * r == r * l) by (nonlinear_arith);
            assert(pass_covers(sizes, re, k, k - 1, r, b, q));
        }
    }
}

/// No double write: two distinct (global repeat, source, per-file
/// repeat, byte) combinations never share a destination offset, so no
/// output byte is scheduled twice.
pub proof fn lemma_no_double_write(
    plan: Plan,
    g1: int,
    f1: int,
    r1: int,
    b1: int,
    g2: int,
    f2: int,
    r2: int,
    b2: int,
)
    requires
        plan.wf(),
        plan.valid_index(g1, f1, r1, b1),
        plan.valid_index(g2, f2, r2, b2),
        plan.dest_spec(g1, f1, r1, b1) == plan.dest_spec(g2, f2, r2, b2),
    ensures
        g1 == g2,
        f1 == f2,
        r1 == r2,
        b1 == b2,
{
    let re = plan.repeat_each as int;
    let block = plan.total_each * plan.repeat_each;
    let q1 = plan.prefix@[f1] * plan.repeat_each + r1 * plan.sizes@[f1] + b1;
    let q2 = plan.prefix@[f2] * plan.repeat_each + r2 * plan.sizes@[f2] + b2;
    plan.lemma_pass_offset_bound(f1, r1, b1);
    plan.lemma_pass_offset_bound(f2, r2, b2);
    lemma_sum_prefix_monotonic(plan.sizes@, f1 + 1, plan.n_sources());
    lemma_sum_prefix_monotonic(plan.sizes@, f2 + 1, plan.n_sources());
    assert(plan.prefix@[f1 + 1] * re <= plan.total_each * re) by (nonlinear_arith)
        requires
            plan.prefix@[f1 + 1] <= plan.total_each,
            re >= 0,
    ;
    assert(plan.prefix@[f2 + 1] * re <= plan.total_each * re) by (nonlinear_arith)
        requires
            plan.prefix@[f2 + 1] <= plan.total_each,
            re >= 0,
    ;
    let p = plan.dest_spec(g1, f1, r1, b1);
    lemma_fundamental_div_mod_converse(p, block, g1, q1);
    lemma_fundamental_div_mod_converse(p, block, g2, q2);
    assert(g1 == g2);
    assert(q1 == q2);
    if f1 < f2 {
        lemma_sum_prefix_monotonic(plan.sizes@, f1 + 1, f2);
        assert(plan.prefix@[f1 + 1] * re <= plan.prefix@[f2] * re) by (nonlinear_arith)
            requires
                plan.prefix@[f1 + 1] <= plan.prefix@[f2],
                re >= 0,
        ;
        assert(0 <= r2 * plan.sizes@[f2]) by (nonlinear_arith)
            requires
                r2 >= 0,
                plan.sizes@[f2] >= 0,
        ;
        assert(false);
    } else if f2 < f1 {
        lemma_sum_prefix_monotonic(plan.sizes@, f2 + 1, f1);
        assert(plan.prefix@[f2 + 1] * re <= plan.prefix@[f1] * re) by (nonlinear_arith)
            requires
                plan.prefix@[f2 + 1] <= plan.prefix@[f1],
                re >= 0,
        ;
        assert(0 <= r1 * plan.sizes@[f1]) by (nonlinear_arith)
            requires
                r1 >= 0,
                plan.sizes@[f1] >= 0,
        ;
        assert(false);
    }
    let l = plan.sizes@[f1] as int;
    let t = q1 - plan.prefix@[f1] * plan.repeat_each;
    assert(t == r1 * l + b1);
    assert(t == r2 * l + b2);
    assert(r1 * l == l * r1) by (nonlinear_arith);
    assert(r2 * l == l * r2) by (nonlinear_arith);
    lemma_fundamental_div_mod_converse(t, l, r1, b1);
    lemma_fundamental_div_mod_converse(t, l, r2, b2);
}

/// No gap: every position of the planned output is covered by some
/// scheduled byte.  Together with `lemma_no_double_write` this says the
/// schedule tiles `[0, total_len)` exactly.
pub proof fn lemma_no_gap(plan: Plan, p: int)
    requires
        plan.wf(),
        0 <= p < plan.total_len,
    ensures
        exists|g: int, f: int, r: int, b: int| covers(plan, g, f, r, b, p),
{
    let te = plan.total_each as int;
    let re = plan.repeat_each as int;
    let ra = plan.repeat_all as int;
    let block = plan.total_each * plan.repeat_each;
    assert(block >= 1) by (nonlinear_arith)
        requires
            te >= 0,
            re >= 1,
            ra >= 1,
            block == te * re,
            te * re * ra >= 1,
    ;
    let g = p / block;
    let q = p % block;
    lemma_fundamental_div_mod(p, block);
    lemma_mod_bound(p, block);
    lemma_div_pos_is_pos(p, block);
    assert(g < ra) by (nonlinear_arith)
        requires
            p == block * g + q,
            0 <= q,
            p < block * ra,
            block > 0,
    ;
    lemma_pass_surjective(plan.sizes@, re, plan.n_sources(), q);
    let (f, r, b) = choose|f: int, r: int, b: int|
        pass_covers(plan.sizes@, re, plan.n_sources(), f, r, b, q);
    assert(plan.prefix@[f] == sum_prefix(plan.sizes@, f));
    assert(g * block == block * g) by (nonlinear_arith);
    assert(covers(plan, g, f, r, b, p));
}

} // verus!
