use std::collections::VecDeque;

use repcat::engine::{Engine, Step};
use repcat::plan::Plan;

/// The output built by direct concatenation and repetition: the whole
/// sequence `ra` times, each source `re` times within one pass.
fn expected(sources: &[Vec<u8>], re: usize, ra: usize) -> Vec<u8> {
    let mut out = Vec::new();
    for _ in 0..ra {
        for s in sources {
            for _ in 0..re {
                out.extend_from_slice(s);
            }
        }
    }
    out
}

/// Drives the verified producer state machine through a simulated
/// free-buffer channel and applies every scheduled write to an
/// in-memory output.  Each completed write hands the buffer id back,
/// exactly as a worker would.  Returns the output together with the
/// largest number of live buffers ever observed.
fn run_pipeline(
    sources: &[Vec<u8>],
    re: usize,
    ra: usize,
    buf_size: usize,
    n_bufs: usize,
) -> (Vec<u8>, usize) {
    let sizes: Vec<usize> = sources.iter().map(|s| s.len()).collect();
    let plan = Plan::new(sizes, re, ra).unwrap();
    let total = plan.total_len;
    let reps = re * ra;
    let mut engine = Engine::new(plan, buf_size, n_bufs);
    let mut out = vec![0u8; total];
    let mut written = vec![0u32; total];
    let mut queue: VecDeque<usize> = (0..n_bufs).collect();
    // Mirror of each buffer's reference count, to observe the protocol
    // from outside the engine.
    let mut mirror = vec![1usize; n_bufs];
    let mut max_live = 0usize;
    while let Some(id) = queue.pop_front() {
        assert!(mirror[id] >= 1);
        match engine.on_buffer_free(id) {
            Step::Wait => {
                mirror[id] -= 1;
                assert!(mirror[id] >= 1);
            }
            Step::Exhausted => {
                mirror[id] -= 1;
                assert_eq!(mirror[id], 0);
            }
            Step::Fill(task) => {
                // Buffer-reuse safety: a refill comes only for a buffer
                // whose count was about to reach zero.
                assert_eq!(mirror[id], 1);
                mirror[id] = reps;
                assert_eq!(task.dests.len(), reps);
                assert!(task.len >= 1);
                let chunk = &sources[task.fid][task.foffset..task.foffset + task.len];
                for &off in task.dests.iter() {
                    out[off..off + task.len].copy_from_slice(chunk);
                    for w in written[off..off + task.len].iter_mut() {
                        *w += 1;
                    }
                    queue.push_back(id);
                }
            }
        }
        let live = engine.outstanding();
        if live > max_live {
            max_live = live;
        }
    }
    assert!(engine.is_complete());
    assert_eq!(engine.outstanding(), 0);
    // Exact tiling: every output byte written exactly once.
    for w in written.iter() {
        assert_eq!(*w, 1);
    }
    (out, max_live)
}

#[test]
fn two_sources_per_file_repeat() {
    let sources = vec![vec![1u8, 2, 3], vec![10u8, 11, 12, 13, 14]];
    let (out, _) = run_pipeline(&sources, 2, 1, 5, 1);
    assert_eq!(out.len(), 16);
    assert_eq!(
        out,
        vec![1, 2, 3, 1, 2, 3, 10, 11, 12, 13, 14, 10, 11, 12, 13, 14]
    );
    assert_eq!(out, expected(&sources, 2, 1));
}

#[test]
fn single_source_global_repeat() {
    let mut src = Vec::new();
    for i in 0..4096u32 {
        src.push((i % 251) as u8);
    }
    let sources = vec![src.clone()];
    let (out, max_live) = run_pipeline(&sources, 1, 3, 4096, 1);
    assert_eq!(out.len(), 12288);
    assert_eq!(&out[0..4096], &src[..]);
    assert_eq!(&out[4096..8192], &src[..]);
    assert_eq!(&out[8192..12288], &src[..]);
    assert!(max_live <= 1);
}

#[test]
fn zero_length_source_is_skipped() {
    let sources = vec![vec![7u8, 8, 9], vec![], vec![20u8, 21]];
    let (out, _) = run_pipeline(&sources, 2, 2, 4, 2);
    assert_eq!(out.len(), (3 + 0 + 2) * 2 * 2);
    assert_eq!(out, expected(&sources, 2, 2));
}

#[test]
fn only_zero_length_sources() {
    let sources: Vec<Vec<u8>> = vec![vec![], vec![]];
    let sizes: Vec<usize> = sources.iter().map(|s| s.len()).collect();
    let plan = Plan::new(sizes, 3, 2).unwrap();
    assert_eq!(plan.total_len, 0);
    let mut engine = Engine::new(plan, 1, 2);
    assert!(engine.is_complete());
    // The sentinel references still drain to zero.
    assert!(matches!(engine.on_buffer_free(0), Step::Exhausted));
    assert!(matches!(engine.on_buffer_free(1), Step::Exhausted));
    assert_eq!(engine.outstanding(), 0);
}

#[test]
fn chunked_reads_with_small_buffers() {
    let sources = vec![vec![1u8, 2, 3, 4, 5], vec![9u8, 8, 7]];
    // Buffer smaller than the sources: 5 splits as 2 + 2 + 1.
    let (out, _) = run_pipeline(&sources, 2, 2, 2, 3);
    assert_eq!(out.len(), 32);
    assert_eq!(out, expected(&sources, 2, 2));
}

#[test]
fn buffer_larger_than_everything() {
    let sources = vec![vec![5u8], vec![6u8, 7]];
    let (out, _) = run_pipeline(&sources, 3, 2, 64, 4);
    assert_eq!(out, expected(&sources, 3, 2));
}

#[test]
fn memory_stays_under_ceiling() {
    let ceiling = 16usize;
    let page = 4usize;
    let sources = vec![vec![1u8; 33], vec![2u8; 7]];
    let total = (33 + 7) * 2;
    let (buf_size, n_bufs) =
        repcat::pool::buffer_config(total, 33, ceiling, page).unwrap();
    assert_eq!(buf_size, 4);
    assert_eq!(n_bufs, 4);
    let (out, max_live) = run_pipeline(&sources, 2, 1, buf_size, n_bufs);
    assert_eq!(out, expected(&sources, 2, 1));
    // At no instant were more than ceiling / buf_size buffers live.
    assert!(max_live <= ceiling / buf_size);
    assert!(n_bufs * buf_size <= ceiling);
}

#[test]
fn single_worker_order_independence() {
    // Completion order does not matter: replay the same schedule with
    // the free events handed back in reverse order.
    let sources = vec![vec![3u8, 1, 4, 1, 5], vec![9u8, 2, 6]];
    let sizes: Vec<usize> = sources.iter().map(|s| s.len()).collect();
    let plan = Plan::new(sizes, 2, 1).unwrap();
    let total = plan.total_len;
    let mut engine = Engine::new(plan, 3, 2);
    let mut out = vec![0u8; total];
    let mut stack: Vec<usize> = (0..2).collect();
    while let Some(id) = stack.pop() {
        match engine.on_buffer_free(id) {
            Step::Wait => {}
            Step::Exhausted => {}
            Step::Fill(task) => {
                let chunk = &sources[task.fid][task.foffset..task.foffset + task.len];
                for &off in task.dests.iter() {
                    out[off..off + task.len].copy_from_slice(chunk);
                    stack.push(id);
                }
            }
        }
    }
    assert!(engine.is_complete());
    assert_eq!(out, expected(&sources, 2, 1));
}
