use vstd::prelude::*;

use vstd::arithmetic::div_mod::lemma_fundamental_div_mod;
use vstd::arithmetic::mul::lemma_mul_inequality;

use crate::plan::ConfigError;

verus! {

/// Relies on page_size::get: the size in bytes of the system's memory
/// pages, cached after the first call.  Nothing is assumed of the
/// value; `buffer_config` handles every outcome.
#[verifier::external_body]
fn os_page_size() -> usize {
    page_size::get()
}

/// Largest source length, or zero when there are no sources.
pub fn max_source_len(sizes: &Vec<usize>) -> (m: usize)
    ensures
        forall|i: int| 0 <= i < sizes@.len() ==> sizes@[i] <= m,
        sizes@.len() == 0 ==> m == 0,
        sizes@.len() > 0 ==> exists|i: int| 0 <= i < sizes@.len() && sizes@[i] == m,
{
    let mut m: usize = 0;
    let mut k: usize = 0;
    while k < sizes.len()
        invariant
            k <= sizes@.len(),
            forall|i: int| 0 <= i < k ==> sizes@[i] <= m,
            m == 0 || exists|i: int| 0 <= i < k && sizes@[i] == m,
            k == 0 ==> m == 0,
            k > 0 && m == 0 ==> exists|i: int| 0 <= i < k && sizes@[i] == m,
        decreases sizes@.len() - k,
    {
        if sizes[k] > m {
            m = sizes[k];
        }
        k += 1;
    }
    m
}

/// The pool sizing policy: when the ceiling covers the whole output,
/// one buffer large enough for the biggest source; otherwise page-sized
/// buffers, as many as fit below the ceiling.  Rejected when the chosen
/// buffer size is zero or exceeds the ceiling.
pub fn buffer_config(total_len: usize, max_source: usize, ceiling: usize, page: usize) -> (res:
    Result<(usize, usize), ConfigError>)
    ensures
        (res matches Ok(_)) <==> {
            let bs: int = if ceiling >= total_len {
                max_source as int
            } else {
                page as int
            };
            1 <= bs <= ceiling
        },
        res matches Ok(c) ==> {
            &&& 1 <= c.0 <= ceiling
            &&& c.1 >= 1
            &&& c.1 * c.0 <= ceiling
            &&& (ceiling >= total_len ==> c.0 == max_source && c.1 == 1)
            &&& (ceiling < total_len ==> c.0 == page && c.1 == ceiling as int / page as int)
        },
        res matches Err(e) ==> e == ConfigError::CeilingTooSmall,
{
    if ceiling >= total_len {
        if max_source == 0 || max_source > ceiling {
            Err(ConfigError::CeilingTooSmall)
        } else {
            Ok((max_source, 1))
        }
    } else {
        if page == 0 || page > ceiling {
            Err(ConfigError::CeilingTooSmall)
        } else {
            let n_bufs = ceiling / page;
            proof {
                lemma_fundamental_div_mod(ceiling as int, page as int);
                vstd::arithmetic::div_mod::lemma_mod_bound(ceiling as int, page as int);
                assert(((ceiling as int) / (page as int)) * page == page * ((ceiling as int) / (
                page as int))) by (nonlinear_arith);
                assert(n_bufs >= 1) by (nonlinear_arith)
                    requires
                        ceiling as int == page * (n_bufs as int) + (ceiling as int) % (
                        page as int),
                        0 <= (ceiling as int) % (page as int),
                        (ceiling as int) % (page as int) < page,
                        page <= ceiling,
                        page > 0,
                ;
            }
            Ok((page, n_bufs))
        }
    }
}

/// Pool sizing against the machine's real page size.  The page size is
/// whatever the system reports, so only the page-independent facts are
/// stated here; `buffer_config` carries the exact policy.
pub fn configure(total_len: usize, max_source: usize, ceiling: usize) -> (res: Result<
    (usize, usize),
    ConfigError,
>)
    ensures
        ceiling >= total_len ==> ((res matches Ok(_)) <==> (1 <= max_source && max_source
            <= ceiling)),
        res matches Ok(c) ==> {
            &&& 1 <= c.0 <= ceiling
            &&& c.1 >= 1
            &&& c.1 * c.0 <= ceiling
            &&& (ceiling >= total_len ==> c.0 == max_source && c.1 == 1)
        },
        res matches Err(e) ==> e == ConfigError::CeilingTooSmall,
{
    let page = os_page_size();
    buffer_config(total_len, max_source, ceiling, page)
}

/// How many buffers of the pool still hold outstanding references.
pub open spec fn live_buffers(counts: Seq<usize>) -> int
    decreases counts.len(),
{
    if counts.len() == 0 {
        0
    } else {
        live_buffers(counts.drop_last()) + if counts.last() > 0 {
            1int
        } else {
            0int
        }
    }
}

pub proof fn lemma_live_buffers_bounded(counts: Seq<usize>)
    ensures
        0 <= live_buffers(counts) <= counts.len(),
    decreases counts.len(),
{
    if counts.len() > 0 {
        lemma_live_buffers_bounded(counts.drop_last());
    }
}

/// Memory-boundedness: the pool owns all transient memory, so at every
/// instant the buffers still holding references occupy at most
/// `n_bufs * buf_size` bytes, which the sizing policy keeps at or below
/// the configured ceiling.
pub proof fn lemma_memory_bounded(counts: Seq<usize>, buf_size: usize, ceiling: usize)
    requires
        counts.len() * buf_size <= ceiling,
    ensures
        live_buffers(counts) * buf_size <= ceiling,
{
    lemma_live_buffers_bounded(counts);
    lemma_mul_inequality(live_buffers(counts), counts.len() as int, buf_size as int);
}

} // verus!
