use vstd::prelude::*;

use vstd::arithmetic::div_mod::{lemma_fundamental_div_mod, lemma_mod_bound};

use crate::plan::{lemma_sum_prefix_monotonic, lemma_sum_prefix_nonneg, sum_prefix, Plan};
use crate::pool::live_buffers;

verus! {

/// One chunk to read and replicate: fill the buffer with `len` bytes of
/// source `fid` starting at `foffset`, then enqueue one write task per
/// destination offset in `dests`, in order.
pub struct FillTask {
    pub fid: usize,
    pub foffset: usize,
    pub len: usize,
    pub dests: Vec<usize>,
}

/// What the producer does with a freed-buffer notification.
pub enum Step {
    /// The buffer still has outstanding references; only the
    /// notification was consumed.
    Wait,
    /// The buffer's count reached zero: refill it and schedule `dests`.
    Fill(FillTask),
    /// The buffer's count reached zero but no source has data left.
    Exhausted,
}

/// The producer's state machine.  The surrounding runtime performs the
/// reads, the channel traffic and the writes; every scheduling decision
/// is made here.  `counts` holds each buffer's outstanding-reference
/// count; `cur_file` / `cur_off` is the read cursor; `scheduled` counts
/// the output bytes scheduled so far.
pub struct Engine {
    pub plan: Plan,
    pub buf_size: usize,
    pub counts: Vec<usize>,
    pub cur_file: usize,
    pub cur_off: usize,
    pub scheduled: usize,
}

impl Engine {
    /// Bytes of one pass consumed so far by the read cursor.
    pub open spec fn consumed(self) -> int {
        sum_prefix(self.plan.sizes@, self.cur_file as int) + self.cur_off
    }

    pub open spec fn done_filling(self) -> bool {
        self.cur_file == self.plan.sizes@.len()
    }

    /// Length of the next chunk: a full buffer, or what is left of the
    /// current source.
    pub open spec fn next_chunk_len(self) -> int {
        let rem = self.plan.sizes@[self.cur_file as int] - self.cur_off;
        if self.buf_size < rem {
            self.buf_size as int
        } else {
            rem
        }
    }

    pub open spec fn wf(self) -> bool {
        &&& self.plan.wf()
        &&& self.buf_size >= 1
        &&& self.cur_file <= self.plan.sizes@.len()
        &&& (self.cur_file < self.plan.sizes@.len() ==> self.cur_off < self.plan.sizes@[
            self.cur_file as int])
        &&& (self.cur_file == self.plan.sizes@.len() ==> self.cur_off == 0)
        &&& self.scheduled == self.consumed() * self.plan.repeat_each * self.plan.repeat_all
    }

    /// The filling phase ends exactly when the scheduled byte count
    /// reaches the planned output size.
    pub proof fn lemma_done_iff_scheduled(self)
        requires
            self.wf(),
        ensures
            self.done_filling() <==> self.scheduled == self.plan.total_len,
    {
        let s = self.plan.sizes@;
        let n = s.len() as int;
        let te = self.plan.total_each as int;
        let re = self.plan.repeat_each as int;
        let ra = self.plan.repeat_all as int;
        let c = self.consumed();
        if self.done_filling() {
            assert(c == te);
        } else {
            let f = self.cur_file as int;
            lemma_sum_prefix_nonneg(s, f);
            assert(sum_prefix(s, f + 1) == sum_prefix(s, f) + s[f]);
            lemma_sum_prefix_monotonic(s, f + 1, n);
            assert(c < te);
            assert(c * re * ra < te * re * ra) by (nonlinear_arith)
                requires
                    0 <= c < te,
                    re >= 1,
                    ra >= 1,
            ;
        }
    }

    /// Move the cursor past exhausted and empty sources without
    /// consuming any byte.
    fn normalize(&mut self)
        requires
            old(self).plan.wf(),
            old(self).cur_file <= old(self).plan.sizes@.len(),
            old(self).cur_file < old(self).plan.sizes@.len() ==> old(self).cur_off <= old(
                self,
            ).plan.sizes@[old(self).cur_file as int],
            old(self).cur_file == old(self).plan.sizes@.len() ==> old(self).cur_off == 0,
        ensures
            final(self).plan == old(self).plan,
            final(self).buf_size == old(self).buf_size,
            final(self).counts == old(self).counts,
            final(self).scheduled == old(self).scheduled,
            final(self).cur_file <= final(self).plan.sizes@.len(),
            final(self).cur_file < final(self).plan.sizes@.len() ==> final(self).cur_off < final(self).plan.sizes@[final(self).cur_file as int],
            final(self).cur_file == final(self).plan.sizes@.len() ==> final(self).cur_off == 0,
            final(self).consumed() == old(self).consumed(),
    {
        let n = self.plan.sizes.len();
        while self.cur_file < n && self.cur_off == self.plan.sizes[self.cur_file]
            invariant
                self.plan == old(self).plan,
                self.buf_size == old(self).buf_size,
                self.counts == old(self).counts,
                self.scheduled == old(self).scheduled,
                self.plan.wf(),
                n == self.plan.sizes@.len(),
                self.cur_file <= n,
                self.cur_file < n ==> self.cur_off <= self.plan.sizes@[self.cur_file as int],
                self.cur_file == n ==> self.cur_off == 0,
                self.consumed() == old(self).consumed(),
            decreases n - self.cur_file,
        {
            proof {
                assert(sum_prefix(self.plan.sizes@, self.cur_file + 1) == sum_prefix(
                    self.plan.sizes@,
                    self.cur_file as int,
                ) + self.plan.sizes@[self.cur_file as int]);
            }
            self.cur_file = self.cur_file + 1;
            self.cur_off = 0;
        }
    }

    /// A fresh engine: nothing scheduled, every buffer carrying the
    /// initial sentinel reference so its first free notification drains
    /// it to zero.
    pub fn new(plan: Plan, buf_size: usize, n_bufs: usize) -> (e: Engine)
        requires
            plan.wf(),
            buf_size >= 1,
        ensures
            e.wf(),
            e.plan == plan,
            e.buf_size == buf_size,
            e.counts@.len() == n_bufs,
            forall|i: int| 0 <= i < n_bufs ==> e.counts@[i] == 1,
            e.scheduled == 0,
            e.consumed() == 0,
    {
        let mut counts: Vec<usize> = Vec::new();
        let mut k: usize = 0;
        while k < n_bufs
            invariant
                k <= n_bufs,
                counts@.len() == k,
                forall|i: int| 0 <= i < k ==> counts@[i] == 1,
            decreases n_bufs - k,
        {
            counts.push(1);
            k += 1;
        }
        let mut e = Engine { plan, buf_size, counts, cur_file: 0, cur_off: 0, scheduled: 0 };
        e.normalize();
        proof {
            assert(e.consumed() == 0);
            assert(e.consumed() * plan.repeat_each * plan.repeat_all == 0) by (nonlinear_arith)
                requires
                    e.consumed() == 0,
            ;
        }
        e
    }

    /// The producer's reaction to one freed-buffer notification.
    ///
    /// Buffer-reuse safety is the `Fill` equivalence below: a refill is
    /// issued exactly when the buffer's outstanding-reference count was
    /// about to reach zero, never while references remain.
    pub fn on_buffer_free(&mut self, buf_id: usize) -> (step: Step)
        requires
            old(self).wf(),
            buf_id < old(self).counts@.len(),
            old(self).counts@[buf_id as int] >= 1,
        ensures
            final(self).wf(),
            final(self).plan == old(self).plan,
            final(self).buf_size == old(self).buf_size,
            final(self).counts@.len() == old(self).counts@.len(),
            forall|i: int|
                0 <= i < final(self).counts@.len() && i != buf_id ==> final(self).counts@[i] == old(self).counts@[i],
            (step matches Step::Wait) <==> old(self).counts@[buf_id as int] > 1,
            (step matches Step::Exhausted) <==> (old(self).counts@[buf_id as int] == 1 && old(
                self,
            ).done_filling()),
            (step matches Step::Fill(_)) <==> (old(self).counts@[buf_id as int] == 1 && !old(
                self,
            ).done_filling()),
            !(step matches Step::Fill(_)) ==> {
                &&& final(self).counts@[buf_id as int] == old(self).counts@[buf_id as int] - 1
                &&& final(self).cur_file == old(self).cur_file
                &&& final(self).cur_off == old(self).cur_off
                &&& final(self).scheduled == old(self).scheduled
            },
            step matches Step::Fill(task) ==> {
                &&& task.fid == old(self).cur_file
                &&& task.foffset == old(self).cur_off
                &&& task.len == old(self).next_chunk_len()
                &&& task.len >= 1
                &&& final(self).counts@[buf_id as int] == old(self).plan.repeat_each * old(self).plan.repeat_all
                &&& task.dests@.len() == old(self).plan.repeat_each * old(self).plan.repeat_all
                &&& (forall|t: int|
                    0 <= t < task.dests@.len() ==> task.dests@[t] == old(self).plan.dest_spec(
                        t / (old(self).plan.repeat_each as int),
                        old(self).cur_file as int,
                        t % (old(self).plan.repeat_each as int),
                        old(self).cur_off as int,
                    ))
                &&& final(self).scheduled == old(self).scheduled + task.len * old(self).plan.repeat_each * old(self).plan.repeat_all
                &&& final(self).consumed() == old(self).consumed() + task.len
            },
    {
        let c = self.counts[buf_id];
        if c > 1 {
            self.counts.set(buf_id, c - 1);
            return Step::Wait;
        }
        let n = self.plan.sizes.len();
        if self.cur_file == n {
            self.counts.set(buf_id, 0);
            return Step::Exhausted;
        }
        let fid = self.cur_file;
        let foffset = self.cur_off;
        let size_f = self.plan.sizes[fid];
        let remaining = size_f - foffset;
        let len = if self.buf_size < remaining {
            self.buf_size
        } else {
            remaining
        };
        let re = self.plan.repeat_each;
        let ra = self.plan.repeat_all;
        proof {
            let s = self.plan.sizes@;
            let te = self.plan.total_each as int;
            lemma_sum_prefix_nonneg(s, fid as int);
            assert(sum_prefix(s, fid as int + 1) == sum_prefix(s, fid as int) + s[fid as int]);
            lemma_sum_prefix_monotonic(s, fid as int + 1, s.len() as int);
            assert(te >= 1);
            assert(re * ra <= te * re * ra) by (nonlinear_arith)
                requires
                    te >= 1,
                    re >= 1,
                    ra >= 1,
            ;
        }
        let refs = re * ra;
        self.counts.set(buf_id, refs);
        let mut dests: Vec<usize> = Vec::new();
        let mut t: usize = 0;
        while t < refs
            invariant
                t <= refs,
                refs == self.plan.repeat_each * self.plan.repeat_all,
                re == self.plan.repeat_each,
                ra == self.plan.repeat_all,
                self.plan.wf(),
                (fid as int) < self.plan.sizes@.len(),
                (foffset as int) < self.plan.sizes@[fid as int],
                dests@.len() == t,
                forall|tt: int|
                    0 <= tt < t ==> dests@[tt] == self.plan.dest_spec(
                        tt / (re as int),
                        fid as int,
                        tt % (re as int),
                        foffset as int,
                    ),
            decreases refs - t,
        {
            let g = t / re;
            let r = t % re;
            proof {
                lemma_fundamental_div_mod(t as int, re as int);
                lemma_mod_bound(t as int, re as int);
                assert(g < ra) by (nonlinear_arith)
                    requires
                        t as int == re * (g as int) + (r as int),
                        0 <= r as int,
                        (t as int) < re * ra,
                        re > 0,
                ;
            }
            let off = self.plan.dest_offset(g, fid, r, foffset);
            dests.push(off);
            t += 1;
        }
        proof {
            let s = self.plan.sizes@;
            let te = self.plan.total_each as int;
            let rei = re as int;
            let rai = ra as int;
            let con = self.consumed();
            lemma_sum_prefix_nonneg(s, fid as int);
            assert(sum_prefix(s, fid as int + 1) == sum_prefix(s, fid as int) + s[fid as int]);
            lemma_sum_prefix_monotonic(s, fid as int + 1, s.len() as int);
            assert(con + len <= te);
            assert(len as int * (rei * rai) == len as int * rei * rai) by (nonlinear_arith);
            assert((con + len) * rei * rai == con * rei * rai + len as int * rei * rai)
                by (nonlinear_arith);
            assert((con + len) * rei * rai <= te * rei * rai) by (nonlinear_arith)
                requires
                    0 <= con + len <= te,
                    rei >= 1,
                    rai >= 1,
            ;
            assert(con * rei * rai >= 0) by (nonlinear_arith)
                requires
                    con >= 0,
                    rei >= 1,
                    rai >= 1,
            ;
        }
        let add = len * refs;
        self.scheduled = self.scheduled + add;
        self.cur_off = foffset + len;
        self.normalize();
        Step::Fill(FillTask { fid, foffset, len, dests })
    }

    /// The filling phase is over once every planned byte is scheduled.
    pub fn is_complete(&self) -> (c: bool)
        requires
            self.wf(),
        ensures
            c <==> self.scheduled == self.plan.total_len,
            c <==> self.done_filling(),
    {
        proof {
            self.lemma_done_iff_scheduled();
        }
        self.cur_file == self.plan.sizes.len()
    }

    /// How many buffers still hold outstanding references; the whole
    /// operation is complete when scheduling is done and this reaches
    /// zero.
    pub fn outstanding(&self) -> (n: usize)
        ensures
            n == live_buffers(self.counts@),
    {
        let mut n: usize = 0;
        let mut k: usize = 0;
        while k < self.counts.len()
            invariant
                k <= self.counts@.len(),
                n == live_buffers(self.counts@.subrange(0, k as int)),
                n <= k,
            decreases self.counts@.len() - k,
        {
            proof {
                assert(self.counts@.subrange(0, k + 1).drop_last() =~= self.counts@.subrange(
                    0,
                    k as int,
                ));
                assert(self.counts@.subrange(0, k + 1).last() == self.counts@[k as int]);
            }
            if self.counts[k] > 0 {
                n = n + 1;
            }
            k += 1;
        }
        proof {
            assert(self.counts@.subrange(0, self.counts@.len() as int) =~= self.counts@);
        }
        n
    }
}

} // verus!
