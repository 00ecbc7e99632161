use vstd::prelude::*;

use crate::plan::{sum_prefix, lemma_sum_prefix_monotonic, lemma_sum_prefix_nonneg, Plan};

verus! {

/// `s` repeated `n` times, end to end.
pub open spec fn repeat_seq(s: Seq<u8>, n: nat) -> Seq<u8>
    decreases n,
{
    if n == 0 {
        Seq::empty()
    } else {
        repeat_seq(s, (n - 1) as nat) + s
    }
}

pub proof fn lemma_repeat_seq_len(s: Seq<u8>, n: nat)
    ensures
        repeat_seq(s, n).len() == n * s.len(),
    decreases n,
{
    if n == 0 {
        assert(n * s.len() == 0) by (nonlinear_arith)
            requires
                n == 0,
        ;
    } else {
        lemma_repeat_seq_len(s, (n - 1) as nat);
        assert(((n - 1) as nat) * s.len() + s.len() == n * s.len()) by (nonlinear_arith)
            requires
                n >= 1,
        ;
    }
}

pub proof fn lemma_repeat_seq_index(s: Seq<u8>, n: nat, g: int, j: int)
    requires
        0 <= g < n,
        0 <= j < s.len(),
    ensures
        repeat_seq(s, n)[g * s.len() + j] == s[j],
    decreases n,
{
    let l = s.len() as int;
    lemma_repeat_seq_len(s, (n - 1) as nat);
    if g == n - 1 {
        assert(g * l == (n - 1) * l);
    } else {
        lemma_repeat_seq_index(s, (n - 1) as nat, g, j);
        assert(g * l + j < (n - 1) * l) by (nonlinear_arith)
            requires
                0 <= g,
                g < n - 1,
                0 <= j < l,
        ;
    }
}

/// One full pass over the first `k` sources: each source repeated
/// `re` times, sources in order.
pub open spec fn concat_repeats(sources: Seq<Seq<u8>>, re: nat, k: int) -> Seq<u8>
    decreases k,
{
    if k <= 0 {
        Seq::empty()
    } else {
        concat_repeats(sources, re, k - 1) + repeat_seq(sources[k - 1], re)
    }
}

/// One full pass over all sources.
pub open spec fn one_pass(sources: Seq<Seq<u8>>, re: nat) -> Seq<u8> {
    concat_repeats(sources, re, sources.len() as int)
}

/// The whole planned output: one pass, repeated `ra` times.
pub open spec fn expected_output(sources: Seq<Seq<u8>>, re: nat, ra: nat) -> Seq<u8> {
    repeat_seq(one_pass(sources, re), ra)
}

/// The plan was computed from exactly these sources.
pub open spec fn plan_matches(plan: Plan, sources: Seq<Seq<u8>>) -> bool {
    &&& plan.sizes@.len() == sources.len()
    &&& (forall|f: int| 0 <= f < sources.len() ==> plan.sizes@[f] == #[trigger] sources[f].len())
}

pub proof fn lemma_concat_repeats_len(sources: Seq<Seq<u8>>, sizes: Seq<usize>, re: nat, k: int)
    requires
        sizes.len() == sources.len(),
        forall|f: int| 0 <= f < sources.len() ==> sizes[f] == #[trigger] sources[f].len(),
        0 <= k <= sources.len(),
    ensures
        concat_repeats(sources, re, k).len() == sum_prefix(sizes, k) * re,
    decreases k,
{
    if k == 0 {
        assert(sum_prefix(sizes, 0) * re == 0) by (nonlinear_arith);
    } else {
        lemma_concat_repeats_len(sources, sizes, re, k - 1);
        lemma_repeat_seq_len(sources[k - 1], re);
        let s = sum_prefix(sizes, k - 1);
        let l = sizes[k - 1] as int;
        assert(s * re + re * l == (s + l) * re) by (nonlinear_arith);
    }
}

pub proof fn lemma_concat_repeats_index(
    sources: Seq<Seq<u8>>,
    sizes: Seq<usize>,
    re: nat,
    k: int,
    f: int,
    r: int,
    b: int,
)
    requires
        sizes.len() == sources.len(),
        forall|ff: int| 0 <= ff < sources.len() ==> sizes[ff] == #[trigger] sources[ff].len(),
        0 <= f < k <= sources.len(),
        0 <= r < re,
        0 <= b < sizes[f],
    ensures
        concat_repeats(sources, re, k)[sum_prefix(sizes, f) * re + r * sizes[f] + b]
            == sources[f][b],
    decreases k,
{
    let p = sum_prefix(sizes, f);
    let l = sizes[f] as int;
    let idx = p * re + r * l + b;
    lemma_sum_prefix_nonneg(sizes, f);
    assert(0 <= r * l) by (nonlinear_arith)
        requires
            r >= 0,
            l >= 0,
    ;
    assert(0 <= p * re) by (nonlinear_arith)
        requires
            p >= 0,
    ;
    lemma_concat_repeats_len(sources, sizes, re, k - 1);
    if f == k - 1 {
        lemma_repeat_seq_index(sources[f], re, r, b);
        lemma_repeat_seq_len(sources[f], re);
        assert(r * l + b < re * l) by (nonlinear_arith)
            requires
                0 <= r < re,
                0 <= b < l,
        ;
        assert(idx - p * re == r * l + b);
        assert(concat_repeats(sources, re, k)[idx] == repeat_seq(sources[f], re)[r * l + b]);
    } else {
        lemma_concat_repeats_index(sources, sizes, re, k - 1, f, r, b);
        assert(idx < (p + l) * re) by (nonlinear_arith)
            requires
                idx == p * re + r * l + b,
                0 <= p,
                0 <= r < re,
                0 <= b < l,
        ;
        lemma_sum_prefix_monotonic(sizes, f + 1, k - 1);
        assert((p + l) * re <= sum_prefix(sizes, k - 1) * re) by (nonlinear_arith)
            requires
                p + l <= sum_prefix(sizes, k - 1),
                re >= 0,
        ;
        assert(concat_repeats(sources, re, k)[idx] == concat_repeats(sources, re, k - 1)[idx]);
    }
}

/// Size invariant: the planned output is exactly the sources' total
/// length, times the per-file repeat count, times the global repeat
/// count.
pub proof fn lemma_size_invariant(plan: Plan, sources: Seq<Seq<u8>>)
    requires
        plan.wf(),
        plan_matches(plan, sources),
    ensures
        expected_output(sources, plan.repeat_each as nat, plan.repeat_all as nat).len()
            == plan.total_len,
        plan.total_len == sum_prefix(plan.sizes@, plan.n_sources()) * plan.repeat_each
            * plan.repeat_all,
{
    let re = plan.repeat_each as nat;
    let ra = plan.repeat_all as nat;
    lemma_concat_repeats_len(sources, plan.sizes@, re, plan.n_sources());
    lemma_repeat_seq_len(one_pass(sources, re), ra);
    let te = plan.total_each as int;
    assert(ra * (te * re) == te * re * ra) by (nonlinear_arith);
}

/// Content invariant: for every valid (global repeat `g`, source `f`,
/// per-file repeat `r`, intra-file byte `b`), the byte of the planned
/// output at the offset the plan computes is source `f`'s byte at `b`.
pub proof fn lemma_content_invariant(
    plan: Plan,
    sources: Seq<Seq<u8>>,
    g: int,
    f: int,
    r: int,
    b: int,
)
    requires
        plan.wf(),
        plan_matches(plan, sources),
        plan.valid_index(g, f, r, b),
    ensures
        expected_output(sources, plan.repeat_each as nat, plan.repeat_all as nat)[plan.dest_spec(
            g,
            f,
            r,
            b,
        )] == sources[f][b],
{
    let re = plan.repeat_each as nat;
    let ra = plan.repeat_all as nat;
    let pass = one_pass(sources, re);
    let q = plan.prefix@[f] * plan.repeat_each + r * plan.sizes@[f] + b;
    plan.lemma_pass_offset_bound(f, r, b);
    lemma_sum_prefix_monotonic(plan.sizes@, f + 1, plan.n_sources());
    lemma_concat_repeats_len(sources, plan.sizes@, re, plan.n_sources());
    lemma_concat_repeats_index(sources, plan.sizes@, re, plan.n_sources(), f, r, b);
    assert(pass[q] == sources[f][b]);
    lemma_repeat_seq_index(pass, ra, g, q);
    assert(g * pass.len() + q == plan.dest_spec(g, f, r, b));
}

/// A chunk scheduled at intra-file offset `b0` is one contiguous write:
/// its `j`-th byte lands `j` past the chunk's destination and equals
/// source `f`'s byte at `b0 + j`.
pub proof fn lemma_chunk_content(
    plan: Plan,
    sources: Seq<Seq<u8>>,
    g: int,
    f: int,
    r: int,
    b0: int,
    j: int,
)
    requires
        plan.wf(),
        plan_matches(plan, sources),
        0 <= g < plan.repeat_all,
        0 <= f < plan.n_sources(),
        0 <= r < plan.repeat_each,
        0 <= b0,
        0 <= j,
        b0 + j < plan.sizes@[f],
    ensures
        expected_output(sources, plan.repeat_each as nat, plan.repeat_all as nat)[plan.dest_spec(
            g,
            f,
            r,
            b0,
        ) + j] == sources[f][b0 + j],
{
    plan.lemma_dest_affine(g, f, r, b0, j);
    lemma_content_invariant(plan, sources, g, f, r, b0 + j);
}

} // verus!
