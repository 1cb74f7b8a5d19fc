use face_crop_forge::batch_export::{plan_zip_export, BatchProgress, DownloadEntry};

#[test]
fn progress_tracks_counts_and_percent() {
    let mut progress = BatchProgress::default();
    progress.start(4, "Processing...");
    assert!(progress.running);
    assert_eq!(progress.percent(), 0);

    progress.record_result(true);
    progress.record_result(false);
    assert_eq!(progress.processed, 2);
    assert_eq!(progress.failed, 1);
    assert_eq!(progress.percent(), 50);

    progress.complete("Done");
    assert!(!progress.running);
    assert_eq!(progress.status, "Done");
}

#[test]
fn zip_name_and_plan_are_deterministic() {
    let entries = vec![
        DownloadEntry {
            file_name: "a.png".to_string(),
            source_image: "img1.jpg".to_string(),
        },
        DownloadEntry {
            file_name: "b.png".to_string(),
            source_image: "img2.jpg".to_string(),
        },
    ];
    let plan = plan_zip_export(&entries, "20260227T190000Z");
    assert_eq!(plan.entry_count, 2);
    assert_eq!(plan.zip_name, "face-crops-20260227T190000Z.zip");
}

#[test]
fn percent_rounds_and_handles_empty_runs() {
    let mut progress = BatchProgress::default();
    assert_eq!(progress.percent(), 0);
    progress.start(3, "Running");
    progress.record_result(true);
    assert_eq!(progress.percent(), 33);
    progress.record_result(true);
    assert_eq!(progress.percent(), 67);
    progress.record_result(false);
    assert_eq!(progress.percent(), 100);
    assert_eq!(progress.failed, 1);
}

#[test]
fn reset_returns_to_idle_progress() {
    let mut progress = BatchProgress::default();
    progress.start(2, "Running");
    progress.record_result(false);
    progress.reset();
    assert_eq!(progress.total, 0);
    assert_eq!(progress.processed, 0);
    assert_eq!(progress.failed, 0);
    assert!(!progress.running);
    assert!(!progress.cancelled);
    assert_eq!(progress.status, "Ready");
}

#[test]
fn zip_plan_of_no_entries_is_empty() {
    let plan = plan_zip_export(&[], "t");
    assert_eq!(plan.entry_count, 0);
    assert_eq!(plan.zip_name, "face-crops-t.zip");
}

#[test]
fn percent_stays_within_hundred_while_counting() {
    let mut progress = BatchProgress::default();
    progress.start(1000, "Running");
    for i in 1..=1000usize {
        progress.record_result(i % 7 != 0);
        let p = progress.percent();
        assert!(p <= 100);
        assert_eq!(p as f64, ((i as f64 / 1000.0) * 100.0).round());
    }
    assert_eq!(progress.percent(), 100);
}
