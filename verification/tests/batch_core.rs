use face_crop_forge::batch_core::{BatchCoreState, BatchQueueState, ImageStatus};

#[test]
fn select_all_none_toggle_updates_counts() {
    let mut state = BatchCoreState::default();
    state.set_images(vec!["a".into(), "b".into(), "c".into()]);
    assert_eq!(state.total_count(), 3);
    assert_eq!(state.selected_count(), 3);

    state.select_none();
    assert_eq!(state.selected_count(), 0);
    assert!(!state.has_selected_images());

    state.toggle_selection("b");
    assert_eq!(state.selected_count(), 1);
    assert!(state.has_selected_images());

    state.select_all();
    assert_eq!(state.selected_count(), 3);
}

#[test]
fn processing_status_transitions_work() {
    let mut state = BatchCoreState::default();
    state.set_images(vec!["img_1".into()]);

    state.mark_processing("img_1");
    assert_eq!(state.get("img_1").unwrap().status, ImageStatus::Processing);

    state.mark_processed("img_1");
    let image = state.get("img_1").unwrap();
    assert_eq!(image.status, ImageStatus::Processed);
    assert!(image.processed);
}

#[test]
fn work_plan_chunks_selected_images() {
    let mut state = BatchCoreState::default();
    state.set_images((1..=7).map(|i| format!("img_{i}")).collect());
    state.toggle_selection("img_2");
    state.toggle_selection("img_4");
    state.toggle_selection("img_6");

    let plan = state.build_work_plan(2);
    assert_eq!(plan.selected_total, 4);
    assert_eq!(plan.chunk_size, 2);
    assert_eq!(plan.chunks.len(), 2);
    assert_eq!(plan.chunks[0].len(), 2);
    assert_eq!(plan.chunks[1].len(), 2);
}

#[test]
fn estimate_preview_memory_is_linear_and_bounded() {
    let bytes = BatchCoreState::estimate_preview_memory_bytes(640, 640, 200);
    assert_eq!(bytes, 640 * 640 * 4 * 200);
    assert!(bytes < 400_000_000);
}

#[test]
fn large_batch_build_work_plan_remains_chunked() {
    let mut state = BatchCoreState::default();
    let ids = (0..10_000).map(|i| format!("img_{i}")).collect();
    state.set_images(ids);
    let plan = state.build_work_plan(128);

    assert_eq!(plan.selected_total, 10_000);
    assert_eq!(plan.chunk_size, 128);
    assert_eq!(plan.chunks.len(), 79);
    assert_eq!(plan.chunks.last().unwrap().len(), 16);
}

#[test]
fn lazy_load_plan_queues_pages_after_initial_page() {
    let plan = BatchCoreState::build_lazy_load_plan(73, 20);
    assert_eq!(plan.total_files, 73);
    assert_eq!(plan.initial_load_count, 20);
    assert_eq!(plan.queued_files, 53);
    assert_eq!(plan.queued_pages, 3);
}

#[test]
fn lazy_load_plan_handles_small_or_empty_sets() {
    let small = BatchCoreState::build_lazy_load_plan(8, 20);
    assert_eq!(small.initial_load_count, 8);
    assert_eq!(small.queued_files, 0);
    assert_eq!(small.queued_pages, 0);

    let empty = BatchCoreState::build_lazy_load_plan(0, 20);
    assert_eq!(empty.initial_load_count, 0);
    assert_eq!(empty.queued_files, 0);
    assert_eq!(empty.queued_pages, 0);
}

#[test]
fn queue_state_loads_first_page_and_dequeues_remaining() {
    let ids = (1..=7).map(|i| format!("img_{i}")).collect::<Vec<_>>();
    let mut queue = BatchQueueState::from_files(&ids, 3);

    assert_eq!(queue.loaded_ids.len(), 3);
    assert_eq!(queue.queued_pages_count(), 2);
    assert_eq!(queue.queued_files_count(), 4);

    let first = queue.dequeue_next_page().unwrap();
    assert_eq!(first.len(), 3);
    assert_eq!(queue.queued_pages_count(), 1);

    let second = queue.dequeue_next_page().unwrap();
    assert_eq!(second.len(), 1);
    assert_eq!(queue.queued_pages_count(), 0);
    assert_eq!(queue.loaded_ids.len(), 7);
}

#[test]
fn toggling_twice_restores_selection() {
    let mut state = BatchCoreState::default();
    state.set_images(vec!["x".into(), "y".into()]);
    state.toggle_selection("x");
    assert!(!state.get("x").unwrap().selected);
    state.toggle_selection("x");
    assert!(state.get("x").unwrap().selected);
    state.toggle_selection("missing");
    assert_eq!(state.total_count(), 2);
    assert_eq!(state.selected_count(), 2);
}

#[test]
fn adding_images_keeps_existing_state() {
    let mut state = BatchCoreState::default();
    state.set_images(vec!["a".into(), "b".into()]);
    state.toggle_selection("a");
    state.mark_processed("b");
    state.add_images(vec!["b".into(), "c".into()]);
    assert_eq!(state.total_count(), 3);
    assert!(!state.get("a").unwrap().selected);
    assert_eq!(state.get("b").unwrap().status, ImageStatus::Processed);
    let c = state.get("c").unwrap();
    assert!(c.selected);
    assert!(!c.processed);
    assert_eq!(c.status, ImageStatus::Loaded);
    assert_eq!(state.selected_ids(), vec!["b".to_string(), "c".to_string()]);
}

#[test]
fn set_images_replaces_previous_images() {
    let mut state = BatchCoreState::default();
    state.set_images(vec!["old".into()]);
    state.set_images(vec!["n2".into(), "n1".into(), "n2".into()]);
    assert_eq!(state.total_count(), 2);
    assert!(state.get("old").is_none());
    assert_eq!(state.selected_ids(), vec!["n1".to_string(), "n2".to_string()]);
}

#[test]
fn work_plan_of_zero_chunk_size_uses_single_chunks() {
    let mut state = BatchCoreState::default();
    state.set_images(vec!["a".into(), "b".into()]);
    let plan = state.build_work_plan(0);
    assert_eq!(plan.chunk_size, 1);
    assert_eq!(plan.chunks, vec![vec!["a".to_string()], vec!["b".to_string()]]);
    let empty = BatchCoreState::default().build_work_plan(5);
    assert_eq!(empty.selected_total, 0);
    assert!(empty.chunks.is_empty());
}

#[test]
fn lazy_load_plan_with_zero_page_size_uses_pages_of_one() {
    let plan = BatchCoreState::build_lazy_load_plan(3, 0);
    assert_eq!(plan.page_size, 1);
    assert_eq!(plan.initial_load_count, 1);
    assert_eq!(plan.queued_files, 2);
    assert_eq!(plan.queued_pages, 2);
}

#[test]
fn ordered_ids_list_every_image_in_order() {
    let mut state = BatchCoreState::default();
    state.set_images(vec!["b::1".into(), "a::2".into(), "c::0".into()]);
    state.select_none();
    assert_eq!(
        state.ordered_ids(),
        vec!["a::2".to_string(), "b::1".to_string(), "c::0".to_string()]
    );
    assert!(BatchCoreState::default().ordered_ids().is_empty());
}
