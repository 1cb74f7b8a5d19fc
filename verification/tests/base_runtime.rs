use face_crop_forge::base_runtime::{
    build_memory_indicator, cleanup_candidate_ids, model_detection_retry_outcome,
    parse_max_retries, reduced_resolution_dimensions, retry_delay_ms, validate_image_meta,
    DetectionRetryPolicy, Dimensions, ImageMeta, ImageValidationConfig, MemoryCleanupEntry,
    MemoryIndicatorLevel, MemoryManagementMode,
};

#[test]
fn memory_indicator_thresholds_match_typescript_logic() {
    let hidden = build_memory_indicator(0, 0, 0);
    assert_eq!(hidden.level, MemoryIndicatorLevel::Hidden);

    let show = build_memory_indicator(3, 0, 0);
    assert_eq!(show.level, MemoryIndicatorLevel::Show);

    let warning = build_memory_indicator(9, 3, 0); // 105
    assert_eq!(warning.level, MemoryIndicatorLevel::Warning);

    let critical = build_memory_indicator(15, 11, 0); // 205
    assert_eq!(critical.level, MemoryIndicatorLevel::Critical);
}

#[test]
fn cleanup_candidates_respect_modes_and_timestamps() {
    let now = 1_000_000;
    let entries = vec![
        MemoryCleanupEntry {
            id: "fresh".to_string(),
            processed: true,
            processed_at_ms: Some(now - 60_000),
            memory_cleaned_up: false,
        },
        MemoryCleanupEntry {
            id: "stale".to_string(),
            processed: true,
            processed_at_ms: Some(now - 600_000),
            memory_cleaned_up: false,
        },
        MemoryCleanupEntry {
            id: "unprocessed".to_string(),
            processed: false,
            processed_at_ms: Some(now - 600_000),
            memory_cleaned_up: false,
        },
        MemoryCleanupEntry {
            id: "already_cleaned".to_string(),
            processed: true,
            processed_at_ms: Some(now - 600_000),
            memory_cleaned_up: true,
        },
    ];

    let manual = cleanup_candidate_ids(MemoryManagementMode::Manual, &entries, now);
    assert!(manual.is_empty());

    let auto = cleanup_candidate_ids(MemoryManagementMode::Auto, &entries, now);
    assert_eq!(auto, vec!["stale".to_string()]);

    let aggressive = cleanup_candidate_ids(MemoryManagementMode::Aggressive, &entries, now);
    assert_eq!(aggressive, vec!["fresh".to_string(), "stale".to_string()]);
}

#[test]
fn retry_and_reduced_resolution_helpers_match_typescript_rules() {
    assert_eq!(parse_max_retries(Some("2")), 2);
    assert_eq!(parse_max_retries(Some("bad")), 0);
    assert_eq!(retry_delay_ms(0), 0);
    assert_eq!(retry_delay_ms(3), 3000);

    let original = Dimensions {
        width: 1920,
        height: 1080,
    };
    assert_eq!(reduced_resolution_dimensions(original, false), original);
    assert_eq!(
        reduced_resolution_dimensions(original, true),
        Dimensions {
            width: 960,
            height: 540
        }
    );
}

#[test]
fn image_validation_matches_typescript_limits() {
    let config = ImageValidationConfig::default();
    let valid = validate_image_meta(
        ImageMeta {
            file_name: "ok.jpg",
            mime_type: "image/jpeg",
            file_size_bytes: 1024,
            dimensions: Dimensions {
                width: 512,
                height: 512,
            },
        },
        config,
    );
    assert!(valid.is_ok());

    let invalid_type = validate_image_meta(
        ImageMeta {
            file_name: "bad.txt",
            mime_type: "text/plain",
            file_size_bytes: 100,
            dimensions: Dimensions {
                width: 512,
                height: 512,
            },
        },
        config,
    );
    assert!(invalid_type.is_err());

    let too_small = validate_image_meta(
        ImageMeta {
            file_name: "tiny.png",
            mime_type: "image/png",
            file_size_bytes: 100,
            dimensions: Dimensions {
                width: 10,
                height: 40,
            },
        },
        config,
    );
    assert!(too_small.is_err());
}

#[test]
fn retry_outcome_succeeds_after_retry_for_transient_ids() {
    let policy = DetectionRetryPolicy {
        max_retries: 2,
        continue_on_error: true,
        reduced_resolution: true,
    };
    let source = Dimensions {
        width: 1200,
        height: 800,
    };
    let transient_id = (0..50)
        .map(|i| format!("img_{i}.jpg"))
        .find(|id| {
            let probe = model_detection_retry_outcome(id, source, policy);
            probe.success && probe.attempts.len() > 1 && !probe.attempts[0].success
        })
        .expect("expected at least one deterministic transient id");
    let out = model_detection_retry_outcome(&transient_id, source, policy);
    assert!(out.success);
    assert!(out.attempts.len() >= 2);
    assert!(!out.attempts[0].success);
    assert_eq!(
        out.final_dimensions,
        Dimensions {
            width: 600,
            height: 400
        }
    );
}

#[test]
fn retry_outcome_fails_for_corrupt_suffix() {
    let policy = DetectionRetryPolicy {
        max_retries: 1,
        continue_on_error: false,
        reduced_resolution: false,
    };
    let out = model_detection_retry_outcome(
        "img.corrupt",
        Dimensions {
            width: 1200,
            height: 800,
        },
        policy,
    );
    assert!(!out.success);
    assert_eq!(out.attempts.len(), 2);
    assert!(out.error_message.is_some());
}
