use face_crop_forge::batch_core::{BatchCoreState, BatchQueueState, BatchRuntimeStats, ImageStatus};
use face_crop_forge::batch_export::BatchProgress;
use face_crop_forge::batch_run::{
    load_uploaded_files, progress_summary, planned_line, prepare_run, progress_line, record_failed_image, record_processed_image, stops_after_failure, AttemptResult,
    DetectionRetryState,
};

fn ids(n: usize) -> Vec<String> {
    (1..=n).map(|i| format!("img_{i}")).collect()
}

#[test]
fn prepare_run_loads_queued_pages_and_marks_selection_processing() {
    let files = ids(5);
    let mut queue = BatchQueueState::from_files(&files, 2);
    let mut state = BatchCoreState::default();
    state.set_images(queue.loaded_ids.clone());
    let mut progress = BatchProgress::default();

    let plan = prepare_run(&mut queue, &mut state, &mut progress, 2, "Nothing selected").unwrap();
    assert_eq!(plan.chunks[0], vec!["img_1".to_string(), "img_2".to_string()]);
    assert_eq!(plan.chunks[2], vec!["img_5".to_string()]);
    assert_eq!(queue.queued_pages_count(), 0);
    assert_eq!(state.total_count(), 5);
    assert_eq!(plan.selected_total, 5);
    assert_eq!(plan.chunk_size, 2);
    assert_eq!(plan.chunks.len(), 3);
    for id in &files {
        assert_eq!(state.get(id).unwrap().status, ImageStatus::Processing);
    }
    assert!(!progress.running);
}

#[test]
fn prepare_run_with_nothing_selected_completes_with_status() {
    let mut queue = BatchQueueState::from_files(&ids(2), 5);
    let mut state = BatchCoreState::default();
    state.set_images(queue.loaded_ids.clone());
    state.select_none();
    let mut progress = BatchProgress::default();
    progress.start(2, "Running");

    let plan = prepare_run(&mut queue, &mut state, &mut progress, 10, "Nothing selected");
    assert!(plan.is_none());
    assert!(!progress.running);
    assert_eq!(progress.total, 2);
    assert_eq!(progress.processed, 0);
    assert_eq!(progress.status, "Nothing selected");
    assert_eq!(state.get("img_1").unwrap().status, ImageStatus::Loaded);
}

#[test]
fn recorded_images_update_progress_stats_and_state() {
    let mut state = BatchCoreState::default();
    state.set_images(ids(2));
    let mut progress = BatchProgress::default();
    progress.start(2, "Running");
    let mut stats = BatchRuntimeStats::default();

    record_processed_image(
        &mut progress, &mut stats, &mut state, "img_1", 40, 2, "1 of 2", "img_1: 2 faces",
    );
    record_failed_image(
        &mut progress, &mut stats, &mut state, "img_2", 60, "2 of 2", "img_2 failed",
    );

    assert_eq!(progress.processed, 2);
    assert_eq!(progress.failed, 1);
    assert_eq!(progress.status, "2 of 2");
    assert_eq!(stats.images_processed, 2);
    assert_eq!(stats.successful_processing, 1);
    assert_eq!(stats.total_faces_detected, 2);
    assert_eq!(stats.processing_times_ms, vec![40, 60]);
    assert_eq!(stats.logs.last().unwrap(), "img_2 failed");
    let first = state.get("img_1").unwrap();
    assert_eq!(first.status, ImageStatus::Processed);
    assert!(first.processed);
    let second = state.get("img_2").unwrap();
    assert_eq!(second.status, ImageStatus::Error);
    assert!(!second.processed);
}

#[test]
fn failure_stops_the_run_unless_continuing() {
    assert!(stops_after_failure(false));
    assert!(!stops_after_failure(true));
}

#[test]
fn retries_run_until_faces_or_budget_spent() {
    let mut retry = DetectionRetryState::new(2);
    assert!(retry.wants_attempt());
    retry.record_attempt(AttemptResult::Failed("worker timeout".to_string()));
    assert_eq!(retry.last_error, "worker timeout");
    retry.record_attempt(AttemptResult::Faces(0));
    assert_eq!(retry.last_error, "No faces detected");
    assert!(retry.wants_attempt());
    retry.record_attempt(AttemptResult::Faces(3));
    assert!(retry.succeeded());
    assert_eq!(retry.face_count, 3);
    assert_eq!(retry.attempts, 3);
    assert!(!retry.wants_attempt());

    let mut none = DetectionRetryState::new(0);
    none.record_attempt(AttemptResult::Faces(0));
    assert!(!none.wants_attempt());
    assert!(!none.succeeded());
}

#[test]
fn status_lines_count_from_one() {
    assert_eq!(
        progress_line("Batch failed", 0, 3, "a.png", Some("No faces detected")),
        "Batch failed 1/3: a.png (No faces detected)"
    );
    assert_eq!(
        progress_line("Batch processing", 2, 3, "c.png", None),
        "Batch processing 3/3: c.png"
    );
    let mut state = BatchCoreState::default();
    state.set_images(ids(5));
    let plan = state.build_work_plan(2);
    assert_eq!(planned_line(&plan), "Planned 5 images in 3 chunk(s) of up to 2");
}

#[test]
fn uploads_load_the_first_page_and_queue_the_rest() {
    let mut state = BatchCoreState::default();
    state.set_images(vec!["old".into()]);
    let mut progress = BatchProgress::default();
    progress.start(9, "Running");
    let queue = load_uploaded_files(ids(45), 20, &mut state, &mut progress);
    assert_eq!(queue.loaded_ids.len(), 20);
    assert_eq!(queue.queued_pages_count(), 2);
    assert_eq!(state.total_count(), 20);
    assert!(state.get("old").is_none());
    assert!(!progress.running);
    assert_eq!(progress.total, 0);
    assert_eq!(
        progress.status,
        "Loaded first 20 image(s); queued 25 image(s) across 2 page(s)."
    );

    let small = load_uploaded_files(ids(3), 20, &mut state, &mut progress);
    assert_eq!(small.queued_pages_count(), 0);
    assert_eq!(progress.status, "Loaded 3 image(s). Ready to process.");
    assert_eq!(state.selected_count(), 3);
}

#[test]
fn progress_summary_reads_counts() {
    let mut progress = BatchProgress::default();
    assert_eq!(progress_summary(&progress), "0/0 processed");
    progress.start(4, "Running");
    progress.record_result(true);
    progress.record_result(false);
    assert_eq!(progress_summary(&progress), "2/4 processed, 1 failed");
}
