use face_crop_forge::batch_core::BatchRuntimeStats;
use face_crop_forge::batch_export::BatchProgress;

#[test]
fn runtime_stats_compute_success_rate_and_average() {
    let mut stats = BatchRuntimeStats::default();
    stats.record_image(100, 2, true);
    stats.record_image(300, 1, false);

    assert_eq!(stats.images_processed, 2);
    assert_eq!(stats.total_faces_detected, 3);
    assert_eq!(stats.success_rate_pct(), 50);
    assert_eq!(stats.avg_processing_time_ms(), 200);
}

#[test]
fn large_batch_progress_and_stats_stay_accurate_over_500_images() {
    const N: usize = 500;
    const FAILURES: usize = 47;

    let mut progress = BatchProgress::default();
    progress.start(N, "Running...");
    assert!(progress.running);
    assert!(!progress.cancelled);

    let mut stats = BatchRuntimeStats::default();
    for i in 0..N {
        let success = i >= FAILURES;
        progress.record_result(success);
        let time_ms = if i % 2 == 0 { 80 } else { 120 };
        stats.record_image(time_ms, if success { 1 } else { 0 }, success);
    }

    assert_eq!(progress.total, N);
    assert_eq!(progress.processed, N);
    assert_eq!(progress.failed, FAILURES);
    assert_eq!(progress.percent(), 100);
    assert!(
        progress.running,
        "running must still be true before complete()"
    );

    progress.complete(&format!(
        "Batch complete: {} processed, {} failed.",
        N - FAILURES,
        FAILURES
    ));
    assert!(!progress.running);
    assert!(!progress.cancelled);

    assert_eq!(stats.images_processed, N as u64);
    assert_eq!(stats.successful_processing, (N - FAILURES) as u64);
    assert_eq!(stats.total_faces_detected, (N - FAILURES) as u64);

    assert_eq!(
        stats.avg_processing_time_ms(),
        100,
        "avg over last 50 entries must be 100 ms"
    );

    assert!(stats.last_export_time_ms.is_none());
    stats.record_export(312);
    assert_eq!(stats.last_export_time_ms, Some(312));
}

#[test]
fn fresh_stats_start_with_ready_log_and_unit_downscale() {
    let stats = BatchRuntimeStats::default();
    assert_eq!(stats.logs, vec!["Ready to process images...".to_string()]);
    assert_eq!(stats.last_downscale_factor_bits, 1.0f64.to_bits());
    assert_eq!(stats.success_rate_pct(), 0);
    assert_eq!(stats.avg_processing_time_ms(), 0);
    assert!(stats.detected_backend.is_empty());
}

#[test]
fn success_rate_rounds_to_nearest_percent() {
    let mut stats = BatchRuntimeStats::default();
    stats.record_image(10, 0, true);
    stats.record_image(10, 0, false);
    stats.record_image(10, 0, false);
    assert_eq!(stats.success_rate_pct(), 33);
    stats.record_image(10, 0, true);
    stats.record_image(10, 0, true);
    assert_eq!(stats.success_rate_pct(), 60);
}

#[test]
fn average_rounds_half_away_from_zero() {
    let mut stats = BatchRuntimeStats::default();
    stats.record_image(1, 0, true);
    stats.record_image(2, 0, true);
    assert_eq!(stats.avg_processing_time_ms(), 2);
}

#[test]
fn timings_keep_only_last_fifty_and_logs_last_hundred() {
    let mut stats = BatchRuntimeStats::default();
    for i in 0..60u64 {
        stats.record_image(i, 0, true);
    }
    assert_eq!(stats.processing_times_ms.len(), 50);
    assert_eq!(stats.processing_times_ms[0], 10);
    for i in 0..120 {
        stats.push_log(&format!("line {}", i));
    }
    assert_eq!(stats.logs.len(), 100);
    assert_eq!(stats.logs[0], "line 20");
    assert_eq!(stats.logs[99], "line 119");
}

#[test]
fn backend_is_recorded_once_and_reset_restores_fresh_state() {
    let mut stats = BatchRuntimeStats::default();
    stats.record_backend("webgl");
    stats.record_backend("cpu");
    assert_eq!(stats.detected_backend, "webgl");
    stats.record_image_size(640, 480, 0.5f64.to_bits());
    assert_eq!(stats.last_image_dimensions, Some((640, 480)));
    assert_eq!(stats.last_downscale_factor_bits, 0.5f64.to_bits());
    stats.record_image(5, 1, true);
    stats.reset();
    assert_eq!(stats.images_processed, 0);
    assert!(stats.processing_times_ms.is_empty());
    assert!(stats.detected_backend.is_empty());
    assert_eq!(stats.last_image_dimensions, None);
    assert_eq!(stats.logs.len(), 1);
}
