//! The decisions of a processing run over the selected images, as the batch
//! and CSV pages take them between the browser's asynchronous steps (reading
//! a file, detecting faces): preparing the run, the retry of detection, and
//! recording each image's outcome in the progress, the statistics and the
//! image states.
use crate::batch_core::{
    flags_of, marked_error, marked_processed, marked_processing, saturating_sum_u64,
    selected_keys, with_added, with_image_changed, BatchCoreState, BatchQueueState,
    BatchRuntimeStats, BatchWorkPlan, ImageFlags, chunk_views, queue_contents, last_n, chunked,
    clone_range, fresh_map, total_len,
};
use crate::batch_export::BatchProgress;
use crate::ordered::{strictly_sorted, views};
use crate::text::{decimal, push_decimal, push_str};
use vstd::prelude::*;

verus! {

/// The progress counters after one more result.
pub open spec fn counted(p: BatchProgress, q: BatchProgress, success: bool) -> bool {
    &&& q.processed == (if p.processed == usize::MAX {
        usize::MAX as int
    } else {
        p.processed + 1
    })
    &&& q.failed == (if success || p.failed == usize::MAX {
        p.failed as int
    } else {
        p.failed + 1
    })
    &&& q.total == p.total
    &&& q.running == p.running
    &&& q.cancelled == p.cancelled
}

/// The statistics after one more image and one more log line.
pub open spec fn logged(
    s: BatchRuntimeStats,
    t: BatchRuntimeStats,
    elapsed_ms: u64,
    faces: u32,
    success: bool,
    log: Seq<char>,
) -> bool {
    &&& t.images_processed == saturating_sum_u64(s.images_processed as nat, 1)
    &&& t.total_faces_detected == saturating_sum_u64(s.total_faces_detected as nat, faces as nat)
    &&& t.successful_processing == (if success {
        saturating_sum_u64(s.successful_processing as nat, 1)
    } else {
        s.successful_processing as nat
    })
    &&& t.processing_times_ms@ == last_n(s.processing_times_ms@.push(elapsed_ms), 50)
    &&& views(t.logs@) == last_n(views(s.logs@).push(log), 100)
}

/// Records an image that failed: a failed result with its status line, a
/// failed sample with its log line, and the image marked as failed.
pub fn record_failed_image(
    progress: &mut BatchProgress,
    stats: &mut BatchRuntimeStats,
    state: &mut BatchCoreState,
    id: &str,
    elapsed_ms: u64,
    status: &str,
    log: &str,
)
    requires
        old(stats).processing_times_ms@.len() < usize::MAX,
        old(stats).logs@.len() < usize::MAX,
    ensures
        counted(*old(progress), *final(progress), false),
        final(progress).status@ == status@,
        logged(*old(stats), *final(stats), elapsed_ms, 0, false, log@),
        final(state)@ == with_image_changed(old(state)@, id@, |f: ImageFlags| marked_error(f)),
{
    progress.record_result(false);
    progress.status = String::from_str(status);
    stats.record_image(elapsed_ms, 0, false);
    stats.push_log(log);
    state.mark_error(id);
}

/// Records an image whose faces were found.
pub fn record_processed_image(
    progress: &mut BatchProgress,
    stats: &mut BatchRuntimeStats,
    state: &mut BatchCoreState,
    id: &str,
    elapsed_ms: u64,
    face_count: u32,
    status: &str,
    log: &str,
)
    requires
        old(stats).processing_times_ms@.len() < usize::MAX,
        old(stats).logs@.len() < usize::MAX,
    ensures
        counted(*old(progress), *final(progress), true),
        final(progress).status@ == status@,
        logged(*old(stats), *final(stats), elapsed_ms, face_count, true, log@),
        final(state)@ == with_image_changed(
            old(state)@,
            id@,
            |f: ImageFlags| marked_processed(f),
        ),
{
    progress.record_result(true);
    progress.status = String::from_str(status);
    stats.record_image(elapsed_ms, face_count, true);
    stats.push_log(log);
    state.mark_processed(id);
}

/// After a failed image the run stops exactly when errors are not to be
/// skipped.
pub fn stops_after_failure(continue_on_error: bool) -> (stop: bool)
    ensures
        stop == !continue_on_error,
{
    !continue_on_error
}

/// All images of `keys` marked as being processed.
pub open spec fn with_processing(m: Map<Seq<char>, ImageFlags>, keys: Set<Seq<char>>) -> Map<
    Seq<char>,
    ImageFlags,
> {
    Map::new(
        |k: Seq<char>| m.dom().contains(k),
        |k: Seq<char>|
            if keys.contains(k) {
                marked_processing(m[k])
            } else {
                m[k]
            },
    )
}

proof fn lemma_with_added_step(
    m: Map<Seq<char>, ImageFlags>,
    done: Seq<Seq<Seq<char>>>,
    page: Seq<Seq<char>>,
)
    ensures
        with_added(with_added(m, done.flatten().to_set()), page.to_set()) == with_added(
            m,
            done.push(page).flatten().to_set(),
        ),
{
    done.lemma_flatten_push(page);
    let a = with_added(with_added(m, done.flatten().to_set()), page.to_set());
    let b = with_added(m, done.push(page).flatten().to_set());
    let f = done.flatten();
    assert forall|k: Seq<char>| (f + page).to_set().contains(k) <==> (f.to_set().contains(k)
        || page.to_set().contains(k)) by {
        if (f + page).to_set().contains(k) {
            let i = choose|i: int| 0 <= i < (f + page).len() && (f + page)[i] == k;
            if i < f.len() {
                assert(f[i] == k);
            } else {
                assert(page[i - f.len()] == k);
            }
        }
        if f.to_set().contains(k) {
            let i = choose|i: int| 0 <= i < f.len() && f[i] == k;
            assert((f + page)[i] == k);
        }
        if page.to_set().contains(k) {
            let i = choose|i: int| 0 <= i < page.len() && page[i] == k;
            assert((f + page)[i + f.len()] == k);
        }
    }
    assert(a =~= b);
}

/// Starts a run: every queued page is loaded into the workspace, the work
/// plan is built with chunks of `chunk_size`, and the selected images are
/// marked as being processed.  With nothing selected the run completes at once
/// with `empty_status` and no plan is returned.
pub fn prepare_run(
    queue: &mut BatchQueueState,
    state: &mut BatchCoreState,
    progress: &mut BatchProgress,
    chunk_size: usize,
    empty_status: &str,
) -> (plan: Option<BatchWorkPlan>)
    ensures
        final(queue).queued_pages@.len() == 0,
        queue_contents(views(final(queue).loaded_ids@), chunk_views(final(queue).queued_pages@))
            == queue_contents(views(old(queue).loaded_ids@), chunk_views(old(queue).queued_pages@)),
        ({
            let loaded = with_added(
                old(state)@,
                chunk_views(old(queue).queued_pages@).flatten().to_set(),
            );
            match plan {
                None => {
                    &&& selected_keys(loaded).len() == 0
                    &&& final(state)@ == loaded
                    &&& !final(progress).running
                    &&& final(progress).status@ == empty_status@
                    &&& final(progress).total == old(progress).total
                    &&& final(progress).processed == old(progress).processed
                    &&& final(progress).failed == old(progress).failed
                    &&& final(progress).cancelled == old(progress).cancelled
                },
                Some(p) => {
                    &&& p.selected_total == selected_keys(loaded).len()
                    &&& p.selected_total > 0
                    &&& p.chunk_size == (if chunk_size == 0 {
                        1
                    } else {
                        chunk_size
                    })
                    &&& chunk_views(p.chunks@) == chunked(
                        chunk_views(p.chunks@).flatten(),
                        p.chunk_size as nat,
                    )
                    &&& strictly_sorted(chunk_views(p.chunks@).flatten())
                    &&& chunk_views(p.chunks@).flatten().to_set() == selected_keys(loaded)
                    &&& final(state)@ == with_processing(loaded, selected_keys(loaded))
                    &&& *final(progress) == *old(progress)
                },
            }
        }),
{
    let ghost start_state = state@;
    let ghost start_pages = chunk_views(queue.queued_pages@);
    let ghost start_loaded = views(queue.loaded_ids@);
    let ghost mut done: Seq<Seq<Seq<char>>> = Seq::empty();
    proof {
        assert(with_added(start_state, done.flatten().to_set()) =~= start_state);
    }
    loop
        invariant
            done + chunk_views(queue.queued_pages@) == start_pages,
            state@ == with_added(start_state, done.flatten().to_set()),
            queue_contents(views(queue.loaded_ids@), chunk_views(queue.queued_pages@))
                == queue_contents(start_loaded, start_pages),
        ensures
            queue.queued_pages@.len() == 0,
            done + chunk_views(queue.queued_pages@) == start_pages,
            state@ == with_added(start_state, done.flatten().to_set()),
            queue_contents(views(queue.loaded_ids@), chunk_views(queue.queued_pages@))
                == queue_contents(start_loaded, start_pages),
        decreases queue.queued_pages@.len(),
    {
        let ghost before = *queue;
        match queue.dequeue_next_page() {
            Some(page) => {
                proof {
                    let pv = views(page@);
                    assert(chunk_views(before.queued_pages@)[0] == pv);
                    assert(chunk_views(queue.queued_pages@) =~= chunk_views(before.queued_pages@).drop_first());
                    assert(done.push(pv) + chunk_views(queue.queued_pages@) =~= done + chunk_views(before.queued_pages@));
                    crate::batch_core::lemma_dequeue_keeps_queue_contents(
                        views(before.loaded_ids@),
                        chunk_views(before.queued_pages@),
                    );
                    lemma_with_added_step(start_state, done, pv);
                    done = done.push(pv);
                }
                state.add_images(page);
            },
            None => {
                break;
            },
        }
    }
    proof {
        assert(done =~= start_pages);
    }
    let plan = state.build_work_plan(chunk_size);
    if plan.selected_total == 0 {
        progress.complete(empty_status);
        return None;
    }
    let ids = state.selected_ids();
    let ghost loaded = state@;
    let mut i: usize = 0;
    while i < ids.len()
        invariant
            i <= ids.len(),
            views(ids@).to_set() == selected_keys(loaded),
            strictly_sorted(views(ids@)),
            state@ == with_processing(loaded, views(ids@).take(i as int).to_set()),
        decreases ids.len() - i,
    {
        let ghost m = state@;
        state.mark_processing(ids[i].as_str());
        proof {
            let k = ids@[i as int]@;
            assert(views(ids@)[i as int] == k);
            assert(views(ids@).to_set().contains(k));
            assert(loaded.dom().contains(k));
            let next = views(ids@).take(i + 1).to_set();
            let prev = views(ids@).take(i as int).to_set();
            crate::batch_core::lemma_take_to_set(views(ids@), i as int);
            if prev.contains(k) {
                let tp = views(ids@).take(i as int);
                let j = choose|j: int| 0 <= j < tp.len() && tp[j] == k;
                assert(tp[j] == views(ids@)[j]);
                assert(views(ids@)[j] == k);
                assert(crate::text::lex_lt(views(ids@)[j], views(ids@)[i as int]));
                crate::text::lemma_lex_irreflexive(k);
            }
            assert(state@ =~= with_processing(loaded, next));
        }
        i = i + 1;
    }
    proof {
        assert(views(ids@).take(ids.len() as int) == views(ids@));
    }
    Some(plan)
}

// ---------------------------------------------------------------- status lines

/// `"<label> <index+1>/<total>: <name>"`, followed by `" (<detail>)"` when
/// there is a detail: the status shown while a run goes through its images.
pub open spec fn progress_text(
    label: Seq<char>,
    index: nat,
    total: nat,
    name: Seq<char>,
    detail: Option<Seq<char>>,
) -> Seq<char> {
    let head = label + " "@ + decimal(index + 1) + "/"@ + decimal(total) + ": "@ + name;
    match detail {
        Some(d) => head + " ("@ + d + ")"@,
        None => head,
    }
}

/// The status of the image at zero-based `index` of `total`.
pub fn progress_line(
    label: &str,
    index: usize,
    total: usize,
    name: &str,
    detail: Option<&str>,
) -> (line: String)
    ensures
        line@ == progress_text(
            label@,
            index as nat,
            total as nat,
            name@,
            match detail {
                Some(d) => Some(d@),
                None => None,
            },
        ),
{
    let mut out = String::new();
    push_str(&mut out, label);
    push_str(&mut out, " ");
    push_decimal(&mut out, index as u128 + 1);
    push_str(&mut out, "/");
    push_decimal(&mut out, total as u128);
    push_str(&mut out, ": ");
    push_str(&mut out, name);
    match detail {
        Some(d) => {
            push_str(&mut out, " (");
            push_str(&mut out, d);
            push_str(&mut out, ")");
        },
        None => {},
    }
    out
}

/// `"Planned <n> images in <m> chunk(s) of up to <size>"`.
pub open spec fn planned_text(selected_total: nat, chunks: nat, chunk_size: nat) -> Seq<char> {
    "Planned "@ + decimal(selected_total) + " images in "@ + decimal(chunks) + " chunk(s) of up to "@
        + decimal(chunk_size)
}

/// The status that starts a batch run over a work plan.
pub fn planned_line(plan: &BatchWorkPlan) -> (line: String)
    ensures
        line@ == planned_text(
            plan.selected_total as nat,
            plan.chunks@.len(),
            plan.chunk_size as nat,
        ),
{
    let mut out = String::new();
    push_str(&mut out, "Planned ");
    push_decimal(&mut out, plan.selected_total as u128);
    push_str(&mut out, " images in ");
    push_decimal(&mut out, plan.chunks.len() as u128);
    push_str(&mut out, " chunk(s) of up to ");
    push_decimal(&mut out, plan.chunk_size as u128);
    out
}

/// `"0/0 processed"` for an empty run, else
/// `"<processed>/<total> processed, <failed> failed"`.
pub open spec fn progress_summary_text(processed: nat, total: nat, failed: nat) -> Seq<char> {
    if total == 0 {
        "0/0 processed"@
    } else {
        decimal(processed) + "/"@ + decimal(total) + " processed, "@ + decimal(failed)
            + " failed"@
    }
}

/// The counts line shown under the upload area.
pub fn progress_summary(progress: &BatchProgress) -> (line: String)
    ensures
        line@ == progress_summary_text(
            progress.processed as nat,
            progress.total as nat,
            progress.failed as nat,
        ),
{
    let mut out = String::new();
    if progress.total == 0 {
        push_str(&mut out, "0/0 processed");
    } else {
        push_decimal(&mut out, progress.processed as u128);
        push_str(&mut out, "/");
        push_decimal(&mut out, progress.total as u128);
        push_str(&mut out, " processed, ");
        push_decimal(&mut out, progress.failed as u128);
        push_str(&mut out, " failed");
    }
    out
}

/// The status after files are loaded: how many are shown, and how many wait
/// in how many pages when some do.
pub open spec fn upload_status_text(
    count: nat,
    loaded: nat,
    queued_files: nat,
    queued_pages: nat,
) -> Seq<char> {
    if queued_pages > 0 {
        "Loaded first "@ + decimal(loaded) + " image(s); queued "@ + decimal(queued_files)
            + " image(s) across "@ + decimal(queued_pages) + " page(s)."@
    } else {
        "Loaded "@ + decimal(count) + " image(s). Ready to process."@
    }
}

proof fn lemma_total_len_is_flattened_len(pages: Seq<Vec<String>>)
    ensures
        total_len(pages) == chunk_views(pages).flatten().len(),
    decreases pages.len(),
{
    if pages.len() > 0 {
        lemma_total_len_is_flattened_len(pages.drop_last());
        let c = chunk_views(pages);
        assert(chunk_views(pages.drop_last()) =~= c.drop_last());
        c.drop_last().lemma_flatten_push(c.last());
        assert(c.drop_last().push(c.last()) =~= c);
    }
}

/// Loads uploaded files: the first page of `ids` becomes the workspace (every
/// image newly added), the rest is queued in pages of `max(page_size, 1)`,
/// and the progress goes back to idle with the upload status.
pub fn load_uploaded_files(
    ids: Vec<String>,
    page_size: usize,
    state: &mut BatchCoreState,
    progress: &mut BatchProgress,
) -> (queue: BatchQueueState)
    ensures
        queue.page_size == (if page_size == 0 {
            1
        } else {
            page_size
        }),
        queue_contents(views(queue.loaded_ids@), chunk_views(queue.queued_pages@)) == views(ids@),
        ({
            let c = chunked(views(ids@), queue.page_size as nat);
            views(queue.loaded_ids@) == (if c.len() == 0 {
                Seq::empty()
            } else {
                c[0]
            })
        }),
        final(state)@ == fresh_map(views(queue.loaded_ids@).to_set()),
        final(progress).total == 0,
        final(progress).processed == 0,
        final(progress).failed == 0,
        !final(progress).running,
        !final(progress).cancelled,
        final(progress).status@ == upload_status_text(
            ids@.len(),
            queue.loaded_ids@.len(),
            total_len(queue.queued_pages@),
            queue.queued_pages@.len(),
        ),
{
    let count = ids.len();
    let queue = BatchQueueState::from_files(ids.as_slice(), page_size);
    proof {
        lemma_total_len_is_flattened_len(queue.queued_pages@);
        assert(views(ids@).len() == ids@.len());
        assert(queue_contents(views(queue.loaded_ids@), chunk_views(queue.queued_pages@)).len()
            == views(queue.loaded_ids@).len() + chunk_views(queue.queued_pages@).flatten().len());
    }
    let queued_pages = queue.queued_pages_count();
    let queued_files = queue.queued_files_count();
    let loaded = clone_range(queue.loaded_ids.as_slice(), 0, queue.loaded_ids.len());
    proof {
        assert(views(queue.loaded_ids@).subrange(0, queue.loaded_ids@.len() as int) == views(
            queue.loaded_ids@,
        ));
    }
    state.set_images(loaded);
    progress.reset();
    let mut status = String::new();
    if queued_pages > 0 {
        push_str(&mut status, "Loaded first ");
        push_decimal(&mut status, queue.loaded_ids.len() as u128);
        push_str(&mut status, " image(s); queued ");
        push_decimal(&mut status, queued_files as u128);
        push_str(&mut status, " image(s) across ");
        push_decimal(&mut status, queued_pages as u128);
        push_str(&mut status, " page(s).");
    } else {
        push_str(&mut status, "Loaded ");
        push_decimal(&mut status, count as u128);
        push_str(&mut status, " image(s). Ready to process.");
    }
    progress.status = status;
    queue
}

/// The state of detecting faces in one image with retries: attempts run until
/// faces are found or `max_retries + 1` attempts have been made.
pub struct DetectionRetryState {
    pub max_retries: u32,
    pub attempts: u32,
    pub face_count: usize,
    pub last_error: String,
}

/// What one detection attempt returned: the faces left after the quality
/// filters, or the worker's error.
pub enum AttemptResult {
    Faces(usize),
    Failed(String),
}

impl DetectionRetryState {
    pub fn new(max_retries: u32) -> (s: Self)
        ensures
            s.max_retries == max_retries,
            s.attempts == 0,
            s.face_count == 0,
            s.last_error@.len() == 0,
    {
        DetectionRetryState { max_retries, attempts: 0, face_count: 0, last_error: String::new() }
    }

    /// Another attempt is due: no faces yet and attempts left.
    pub fn wants_attempt(&self) -> (b: bool)
        ensures
            b == (self.face_count == 0 && self.attempts <= self.max_retries),
    {
        self.face_count == 0 && self.attempts <= self.max_retries
    }

    /// Records one attempt's result.
    pub fn record_attempt(&mut self, result: AttemptResult)
        requires
            old(self).face_count == 0,
            old(self).attempts <= old(self).max_retries,
            old(self).attempts < u32::MAX,
        ensures
            final(self).attempts == old(self).attempts + 1,
            final(self).max_retries == old(self).max_retries,
            match result {
                AttemptResult::Faces(n) => if n == 0 {
                    final(self).face_count == 0 && final(self).last_error@ == "No faces detected"@
                } else {
                    final(self).face_count == n && final(self).last_error == old(self).last_error
                },
                AttemptResult::Failed(e) => final(self).face_count == 0 && final(self).last_error
                    == e,
            },
    {
        self.attempts = self.attempts + 1;
        match result {
            AttemptResult::Faces(n) => {
                if n == 0 {
                    self.last_error = String::from_str("No faces detected");
                } else {
                    self.face_count = n;
                }
            },
            AttemptResult::Failed(e) => {
                self.last_error = e;
            },
        }
    }

    /// Faces were found.
    pub fn succeeded(&self) -> (b: bool)
        ensures
            b == (self.face_count > 0),
    {
        self.face_count > 0
    }
}

} // verus!
