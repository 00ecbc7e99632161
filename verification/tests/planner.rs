use repcat::plan::{ConfigError, Plan};
use repcat::pool::{buffer_config, configure, max_source_len};
use repcat::validate_input_paths;

#[test]
fn plan_totals() {
    let p = Plan::new(vec![3, 5], 2, 1).unwrap();
    assert_eq!(p.total_each, 8);
    assert_eq!(p.total_len, 16);
    assert_eq!(p.prefix, vec![0, 3, 8]);

    let p = Plan::new(vec![3, 0, 2], 2, 4).unwrap();
    assert_eq!(p.total_each, 5);
    assert_eq!(p.total_len, 40);
    assert_eq!(p.prefix, vec![0, 3, 3, 5]);

    let p = Plan::new(vec![], 7, 7).unwrap();
    assert_eq!(p.total_len, 0);
}

#[test]
fn plan_offsets_exact() {
    let p = Plan::new(vec![3, 5], 2, 2).unwrap();
    // First pass: source 0 twice, then source 1 twice.
    assert_eq!(p.dest_offset(0, 0, 0, 0), 0);
    assert_eq!(p.dest_offset(0, 0, 0, 2), 2);
    assert_eq!(p.dest_offset(0, 0, 1, 0), 3);
    assert_eq!(p.dest_offset(0, 1, 0, 0), 6);
    assert_eq!(p.dest_offset(0, 1, 1, 4), 15);
    // Second global pass starts after the 16 bytes of the first.
    assert_eq!(p.dest_offset(1, 0, 0, 0), 16);
    assert_eq!(p.dest_offset(1, 1, 1, 4), 31);
}

#[test]
fn plan_rejects_zero_repeat() {
    assert_eq!(Plan::new(vec![1], 0, 1).unwrap_err(), ConfigError::ZeroRepeat);
    assert_eq!(Plan::new(vec![1], 1, 0).unwrap_err(), ConfigError::ZeroRepeat);
    assert_eq!(Plan::new(vec![], 0, 0).unwrap_err(), ConfigError::ZeroRepeat);
}

#[test]
fn plan_rejects_oversized_output() {
    assert_eq!(
        Plan::new(vec![usize::MAX, usize::MAX], 1, 1).unwrap_err(),
        ConfigError::TooLarge
    );
    assert_eq!(
        Plan::new(vec![usize::MAX], 2, 1).unwrap_err(),
        ConfigError::TooLarge
    );
    assert_eq!(
        Plan::new(vec![usize::MAX], 1, 2).unwrap_err(),
        ConfigError::TooLarge
    );
    assert!(Plan::new(vec![usize::MAX], 1, 1).is_ok());
}

#[test]
fn config_unbounded_uses_one_large_buffer() {
    assert_eq!(buffer_config(100, 40, 1000, 7), Ok((40, 1)));
    // The ceiling equal to the total still counts as unbounded.
    assert_eq!(buffer_config(100, 40, 100, 7), Ok((40, 1)));
}

#[test]
fn config_bounded_uses_page_sized_buffers() {
    assert_eq!(buffer_config(10000, 40, 100, 7), Ok((7, 14)));
    assert_eq!(buffer_config(10000, 40, 7, 7), Ok((7, 1)));
}

#[test]
fn config_rejects_small_ceiling() {
    // Bounded run whose ceiling cannot hold one page.
    assert_eq!(
        buffer_config(10000, 40, 5, 7),
        Err(ConfigError::CeilingTooSmall)
    );
    // A zero page size can never fit a buffer.
    assert_eq!(
        buffer_config(10000, 40, 100, 0),
        Err(ConfigError::CeilingTooSmall)
    );
    // Unbounded run whose largest source exceeds the ceiling.
    assert_eq!(
        buffer_config(5, 9, 5, 4),
        Err(ConfigError::CeilingTooSmall)
    );
    // Nothing to write at all: no usable buffer size exists.
    assert_eq!(
        buffer_config(0, 0, 100, 4),
        Err(ConfigError::CeilingTooSmall)
    );
}

#[test]
fn configure_unbounded_ignores_page_size() {
    // When the ceiling covers the whole output the policy does not
    // consult the machine's page size at all.
    assert_eq!(configure(10, 7, 100), Ok((7, 1)));
    assert_eq!(configure(0, 0, 100).unwrap_err(), ConfigError::CeilingTooSmall);
    assert_eq!(configure(5, 9, 5).unwrap_err(), ConfigError::CeilingTooSmall);
}

#[test]
fn max_source_len_picks_largest() {
    assert_eq!(max_source_len(&vec![]), 0);
    assert_eq!(max_source_len(&vec![3, 9, 2]), 9);
    assert_eq!(max_source_len(&vec![0, 0]), 0);
}

#[test]
fn validate_input_paths_flags() {
    assert!(validate_input_paths(&vec![]));
    assert!(validate_input_paths(&vec![true, true, true]));
    assert!(!validate_input_paths(&vec![true, false, true]));
    assert!(!validate_input_paths(&vec![false]));
}
