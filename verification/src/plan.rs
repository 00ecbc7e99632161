use vstd::prelude::*;

verus! {

/// A configuration the pipeline rejects before any I/O starts.
#[derive(Clone, Copy, Debug, PartialEq, Eq, Structural)]
pub enum ConfigError {
    /// A repeat count of zero was supplied.
    ZeroRepeat,
    /// The planned output size does not fit in a machine word.
    TooLarge,
    /// The memory ceiling cannot hold even one buffer.
    CeilingTooSmall,
}

/// Sum of the first `k` source lengths.
pub open spec fn sum_prefix(sizes: Seq<usize>, k: int) -> int
    decreases k,
{
    if k <= 0 {
        0
    } else {
        sum_prefix(sizes, k - 1) + sizes[k - 1]
    }
}

pub proof fn lemma_sum_prefix_monotonic(sizes: Seq<usize>, k1: int, k2: int)
    requires
        0 <= k1 <= k2,
    ensures
        sum_prefix(sizes, k1) <= sum_prefix(sizes, k2),
    decreases k2,
{
    if k1 < k2 {
        lemma_sum_prefix_monotonic(sizes, k1, k2 - 1);
    }
}

pub proof fn lemma_sum_prefix_nonneg(sizes: Seq<usize>, k: int)
    ensures
        sum_prefix(sizes, k) >= 0,
    decreases k,
{
    if k > 0 {
        lemma_sum_prefix_nonneg(sizes, k - 1);
    }
}

/// The immutable layout plan: source lengths, their prefix sums, the two
/// repeat counts, and the derived totals.  `total_len` is the exact size of
/// the output; `dest_spec` maps every (global repeat, source, per-file
/// repeat, intra-file byte) combination to its absolute output offset.
#[derive(Debug)]
pub struct Plan {
    pub sizes: Vec<usize>,
    pub prefix: Vec<usize>,
    pub repeat_each: usize,
    pub repeat_all: usize,
    pub total_each: usize,
    pub total_len: usize,
}

impl Plan {
    pub open spec fn n_sources(self) -> int {
        self.sizes@.len() as int
    }

    pub open spec fn wf(self) -> bool {
        &&& self.repeat_each >= 1
        &&& self.repeat_all >= 1
        &&& self.prefix@.len() == self.sizes@.len() + 1
        &&& (forall|k: int|
            0 <= k <= self.n_sources() ==> #[trigger] self.prefix@[k] == sum_prefix(
                self.sizes@,
                k,
            ))
        &&& self.total_each == sum_prefix(self.sizes@, self.n_sources())
        &&& self.total_len == self.total_each * self.repeat_each * self.repeat_all
    }

    /// The offset formula: replication `g` of the whole sequence starts at
    /// `g * total_each * repeat_each`; within one pass, source `f` starts at
    /// `prefix[f] * repeat_each`, its per-file replication `r` at a further
    /// `r * sizes[f]`, and `b` indexes the byte inside the source.
    pub open spec fn dest_spec(self, g: int, f: int, r: int, b: int) -> int {
        g * (self.total_each * self.repeat_each) + self.prefix@[f] * self.repeat_each + r
            * self.sizes@[f] + b
    }

    pub open spec fn valid_index(self, g: int, f: int, r: int, b: int) -> bool {
        &&& 0 <= g < self.repeat_all
        &&& 0 <= f < self.n_sources()
        &&& 0 <= r < self.repeat_each
        &&& 0 <= b < self.sizes@[f]
    }

    /// Within one global pass, every scheduled byte of source `f` lands
    /// strictly before `prefix[f + 1] * repeat_each`.
    pub proof fn lemma_pass_offset_bound(self, f: int, r: int, b: int)
        requires
            self.wf(),
            0 <= f < self.n_sources(),
            0 <= r < self.repeat_each,
            0 <= b < self.sizes@[f],
        ensures
            0 <= self.prefix@[f] * self.repeat_each + r * self.sizes@[f] + b,
            self.prefix@[f] * self.repeat_each + r * self.sizes@[f] + b < self.prefix@[f + 1]
                * self.repeat_each,
            self.prefix@[f + 1] * self.repeat_each <= self.total_each * self.repeat_each,
    {
        let re = self.repeat_each as int;
        let p = self.prefix@[f] as int;
        let l = self.sizes@[f] as int;
        lemma_sum_prefix_nonneg(self.sizes@, f);
        assert(self.prefix@[f + 1] == sum_prefix(self.sizes@, f + 1));
        assert(sum_prefix(self.sizes@, f + 1) == sum_prefix(self.sizes@, f) + l);
        assert(0 <= p * re + r * l + b) by (nonlinear_arith)
            requires
                0 <= p,
                0 <= re,
                0 <= r,
                0 <= l,
                0 <= b,
        ;
        assert(p * re + r * l + b < (p + l) * re) by (nonlinear_arith)
            requires
                0 <= p,
                0 <= r < re,
                0 <= b < l,
        ;
        lemma_sum_prefix_monotonic(self.sizes@, f + 1, self.n_sources());
        assert((p + l) * re <= self.total_each * re) by (nonlinear_arith)
            requires
                p + l <= self.total_each,
                0 <= re,
        ;
    }

    /// Every scheduled destination offset lies inside the planned output.
    pub proof fn lemma_dest_in_range(self, g: int, f: int, r: int, b: int)
        requires
            self.wf(),
            self.valid_index(g, f, r, b),
        ensures
            0 <= self.dest_spec(g, f, r, b) < self.total_len,
    {
        self.lemma_pass_offset_bound(f, r, b);
        let block = self.total_each * self.repeat_each;
        let q = self.prefix@[f] * self.repeat_each + r * self.sizes@[f] + b;
        assert(0 <= g * block + q < block * self.repeat_all) by (nonlinear_arith)
            requires
                0 <= q < block,
                0 <= g < self.repeat_all,
        ;
        assert(self.total_len == block * self.repeat_all);
    }

    /// A chunk write is one contiguous run: the destination of byte
    /// `b0 + j` is the destination of byte `b0`, shifted by `j`.
    pub proof fn lemma_dest_affine(self, g: int, f: int, r: int, b0: int, j: int)
        ensures
            self.dest_spec(g, f, r, b0 + j) == self.dest_spec(g, f, r, b0) + j,
    {
    }

    /// Builds the plan.  The output length is exactly
    /// `sum of source lengths * repeat_each * repeat_all`; zero repeat
    /// counts and plans whose output cannot fit in a machine word are
    /// rejected.
    pub fn new(sizes: Vec<usize>, repeat_each: usize, repeat_all: usize) -> (res: Result<
        Plan,
        ConfigError,
    >)
        ensures
            (res matches Ok(_)) <==> (repeat_each >= 1 && repeat_all >= 1 && sum_prefix(
                sizes@,
                sizes@.len() as int,
            ) * repeat_each * repeat_all <= usize::MAX),
            res matches Ok(p) ==> {
                &&& p.wf()
                &&& p.sizes@ == sizes@
                &&& p.repeat_each == repeat_each
                &&& p.repeat_all == repeat_all
                &&& p.total_each == sum_prefix(sizes@, sizes@.len() as int)
                &&& p.total_len == sum_prefix(sizes@, sizes@.len() as int) * repeat_each
                    * repeat_all
            },
            res == Err::<Plan, ConfigError>(ConfigError::ZeroRepeat) <==> (repeat_each == 0
                || repeat_all == 0),
            res == Err::<Plan, ConfigError>(ConfigError::TooLarge) <==> (repeat_each >= 1
                && repeat_all >= 1 && sum_prefix(sizes@, sizes@.len() as int) * repeat_each
                * repeat_all > usize::MAX),
    {
        if repeat_each == 0 || repeat_all == 0 {
            return Err(ConfigError::ZeroRepeat);
        }
        let n = sizes.len();
        let mut prefix: Vec<usize> = Vec::new();
        let mut acc: usize = 0;
        prefix.push(0);
        let mut i: usize = 0;
        while i < n
            invariant
                i <= n,
                n == sizes@.len(),
                repeat_each >= 1,
                repeat_all >= 1,
                prefix@.len() == i + 1,
                forall|k: int| 0 <= k <= i ==> #[trigger] prefix@[k] == sum_prefix(sizes@, k),
                acc == sum_prefix(sizes@, i as int),
            decreases n - i,
        {
            match acc.checked_add(sizes[i]) {
                Some(a) => {
                    acc = a;
                },
                None => {
                    proof {
                        let total = sum_prefix(sizes@, n as int);
                        lemma_sum_prefix_monotonic(sizes@, i + 1, n as int);
                        assert(total <= total * repeat_each * repeat_all) by (nonlinear_arith)
                            requires
                                total >= 0,
                                repeat_each >= 1,
                                repeat_all >= 1,
                        ;
                    }
                    return Err(ConfigError::TooLarge);
                },
            }
            prefix.push(acc);
            i += 1;
        }
        let total_each = acc;
        let with_each = match total_each.checked_mul(repeat_each) {
            Some(t) => t,
            None => {
                proof {
                    let total = sum_prefix(sizes@, n as int);
                    assert(total * repeat_each <= total * repeat_each * repeat_all)
                        by (nonlinear_arith)
                        requires
                            total >= 0,
                            repeat_each >= 1,
                            repeat_all >= 1,
                    ;
                }
                return Err(ConfigError::TooLarge);
            },
        };
        let total_len = match with_each.checked_mul(repeat_all) {
            Some(t) => t,
            None => {
                return Err(ConfigError::TooLarge);
            },
        };
        Ok(Plan { sizes, prefix, repeat_each, repeat_all, total_each, total_len })
    }

    /// Executable form of the offset formula.
    pub fn dest_offset(&self, g: usize, f: usize, r: usize, b: usize) -> (off: usize)
        requires
            self.wf(),
            self.valid_index(g as int, f as int, r as int, b as int),
        ensures
            off == self.dest_spec(g as int, f as int, r as int, b as int),
            off < self.total_len,
    {
        proof {
            self.lemma_dest_in_range(g as int, f as int, r as int, b as int);
            self.lemma_pass_offset_bound(f as int, r as int, b as int);
            let te = self.total_each as int;
            let re = self.repeat_each as int;
            let ra = self.repeat_all as int;
            let p = self.prefix@[f as int] as int;
            let l = self.sizes@[f as int] as int;
            assert(te * re <= te * re * ra) by (nonlinear_arith)
                requires
                    te >= 0,
                    re >= 0,
                    ra >= 1,
            ;
            assert(0 <= g * (te * re)) by (nonlinear_arith)
                requires
                    g >= 0,
                    te >= 0,
                    re >= 0,
            ;
            assert(0 <= p * re) by (nonlinear_arith)
                requires
                    p >= 0,
                    re >= 0,
            ;
            assert(0 <= r * l) by (nonlinear_arith)
                requires
                    r >= 0,
                    l >= 0,
            ;
        }
        g * (self.total_each * self.repeat_each) + self.prefix[f] * self.repeat_each + r
            * self.sizes[f] + b
    }
}

} // verus!
