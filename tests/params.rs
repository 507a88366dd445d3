use kaspa_consensus_order::params::Params;

fn mainnet_like() -> Params {
    Params {
        ghostdag_k: 18,
        timestamp_deviation_tolerance: 132,
        sample_timestamp_deviation_tolerance: 600,
        past_median_time_sample_rate: 10,
        target_time_per_block: 1000,
        difficulty_sample_rate: 30,
        difficulty_window_size: 2641,
        mergeset_size_limit: 180,
        merge_depth: 3600,
        finality_depth: 86400,
    }
}

#[test]
fn derived_window_sizes() {
    let p = mainnet_like();
    assert_eq!(p.past_median_time_window_size(), 263);
    assert_eq!(p.past_median_time_sample_window_size(), 119);
    assert_eq!(p.expected_daa_window_duration_in_milliseconds(), 79_200_000);
    assert_eq!(p.anticone_finalization_depth(), 86400 + 3600 + 4 * 180 * 18 + 2 * 18 + 2);
}

#[test]
fn nearly_synced_within_window_span() {
    let p = mainnet_like();
    let sink = 1_700_000_000_000u64;
    assert!(p.is_nearly_synced(sink, sink));
    assert!(p.is_nearly_synced(sink + 79_199_999, sink));
    assert!(!p.is_nearly_synced(sink + 79_200_000, sink));
}
