//! The batch workspace: the set of loaded images keyed by id with their
//! selection and processing state, the work plan that chunks the selected ids,
//! the lazy-loading plan and queue, and the running statistics of a batch.
use crate::binary_float::{
    float_div, float_div_exec, float_mul_nat, float_mul_u64, float_of_u64, float_round,
    float_round_capped, lemma_pow2_table,
};
use crate::batch_export::f64_of;
use crate::ordered::{sorted_distinct, strictly_sorted, views};
use crate::text::{
    chars_eq, chars_of, lemma_lex_asymmetric, lemma_lex_irreflexive, lemma_lex_total,
    lemma_lex_transitive, lex_less, lex_lt,
};
use vstd::prelude::*;

verus! {

#[derive(Clone, Copy, Debug, PartialEq, Eq, Structural)]
pub enum ImageStatus {
    Loaded,
    Processing,
    Processed,
    Error,
}

#[derive(Clone, Debug, PartialEq, Eq)]
pub struct BatchImage {
    pub id: String,
    pub selected: bool,
    pub processed: bool,
    pub status: ImageStatus,
}

/// The state of one image, as the workspace keeps it under the image's id.
#[derive(Clone, Copy, Debug, PartialEq, Eq, Structural)]
pub struct ImageFlags {
    pub selected: bool,
    pub processed: bool,
    pub status: ImageStatus,
}

pub open spec fn flags_of(image: BatchImage) -> ImageFlags {
    ImageFlags { selected: image.selected, processed: image.processed, status: image.status }
}

/// A newly added image: selected, not processed, loaded.
pub open spec fn fresh_flags() -> ImageFlags {
    ImageFlags { selected: true, processed: false, status: ImageStatus::Loaded }
}

impl BatchImage {
    pub fn new(id: String) -> (image: Self)
        ensures
            image.id == id,
            flags_of(image) == fresh_flags(),
    {
        BatchImage { id, selected: true, processed: false, status: ImageStatus::Loaded }
    }
}

/// The loaded images of a batch, keyed by id.
pub struct BatchCoreState {
    images: Vec<BatchImage>,
}

#[derive(Clone, Debug, PartialEq, Eq)]
pub struct BatchQueueState {
    pub page_size: usize,
    pub loaded_ids: Vec<String>,
    pub queued_pages: Vec<Vec<String>>,
}

#[derive(Clone, Debug, PartialEq, Eq)]
pub struct BatchWorkPlan {
    pub selected_total: usize,
    pub chunk_size: usize,
    pub chunks: Vec<Vec<String>>,
}

#[derive(Clone, Copy, Debug, PartialEq, Eq, Structural)]
pub struct BatchLazyLoadPlan {
    pub total_files: usize,
    pub page_size: usize,
    pub initial_load_count: usize,
    pub queued_files: usize,
    pub queued_pages: usize,
}

// ---------------------------------------------------------------- the id map

/// The ids of a sequence of images.
pub open spec fn ids_of(s: Seq<BatchImage>) -> Seq<Seq<char>> {
    s.map_values(|image: BatchImage| image.id@)
}

/// `s[i]` has the id `k`.
pub open spec fn image_at(s: Seq<BatchImage>, k: Seq<char>, i: int) -> bool {
    0 <= i < s.len() && s[i].id@ == k
}

/// The map from id to state that a sequence of distinct images stands for.
pub open spec fn images_view(s: Seq<BatchImage>) -> Map<Seq<char>, ImageFlags> {
    Map::new(
        |k: Seq<char>| exists|i: int| image_at(s, k, i),
        |k: Seq<char>| flags_of(s[choose|i: int| image_at(s, k, i)]),
    )
}

/// Ids in strictly increasing order, hence distinct.
pub open spec fn images_ordered(s: Seq<BatchImage>) -> bool {
    strictly_sorted(ids_of(s))
}

proof fn lemma_ordered_distinct(s: Seq<BatchImage>, i: int, j: int)
    requires
        images_ordered(s),
        0 <= i < s.len(),
        0 <= j < s.len(),
        s[i].id@ == s[j].id@,
    ensures
        i == j,
{
    let ids = ids_of(s);
    assert(ids[i] == s[i].id@);
    assert(ids[j] == s[j].id@);
    if i < j {
        assert(lex_lt(ids[i], ids[j]));
        lemma_lex_irreflexive(ids[i]);
    } else if j < i {
        assert(lex_lt(ids[j], ids[i]));
        lemma_lex_irreflexive(ids[i]);
    }
}

proof fn lemma_view_at(s: Seq<BatchImage>, i: int)
    requires
        images_ordered(s),
        0 <= i < s.len(),
    ensures
        images_view(s).dom().contains(s[i].id@),
        images_view(s)[s[i].id@] == flags_of(s[i]),
{
    let k = s[i].id@;
    assert(image_at(s, k, i));
    let c = choose|c: int| image_at(s, k, c);
    lemma_ordered_distinct(s, i, c);
}

/// Replacing the image at `i` by one with the same id updates the map at that id.
proof fn lemma_view_update(s: Seq<BatchImage>, i: int, x: BatchImage)
    requires
        images_ordered(s),
        0 <= i < s.len(),
        x.id@ == s[i].id@,
    ensures
        images_ordered(s.update(i, x)),
        images_view(s.update(i, x)) == images_view(s).insert(x.id@, flags_of(x)),
{
    let t = s.update(i, x);
    assert(ids_of(t) =~= ids_of(s));
    assert(images_ordered(t));
    let m = images_view(t);
    let n = images_view(s).insert(x.id@, flags_of(x));
    assert forall|k: Seq<char>| m.dom().contains(k) <==> n.dom().contains(k) by {
        if m.dom().contains(k) {
            let c = choose|c: int| image_at(t, k, c);
            assert(image_at(s, k, c));
        }
        if n.dom().contains(k) && k != x.id@ {
            let c = choose|c: int| image_at(s, k, c);
            assert(image_at(t, k, c));
        }
        if k == x.id@ {
            assert(image_at(t, k, i));
        }
    }
    assert forall|k: Seq<char>| #[trigger] m.dom().contains(k) implies m[k] == n[k] by {
        let c = choose|c: int| image_at(t, k, c);
        lemma_view_at(t, c);
        if c == i {
            assert(k == x.id@);
        } else {
            assert(t[c] == s[c]);
            lemma_view_at(s, c);
            if k == x.id@ {
                lemma_ordered_distinct(s, c, i);
            }
        }
    }
    assert(m =~= n);
}

/// The first `i + 1` elements are the first `i` and element `i`.
pub proof fn lemma_take_to_set(s: Seq<Seq<char>>, i: int)
    requires
        0 <= i < s.len(),
    ensures
        s.take(i + 1).to_set() == s.take(i).to_set().insert(s[i]),
{
    let ta = s.take(i + 1);
    let tb = s.take(i);
    let a = ta.to_set();
    let b = tb.to_set().insert(s[i]);
    assert forall|k: Seq<char>| a.contains(k) <==> b.contains(k) by {
        if a.contains(k) {
            let c = choose|c: int| 0 <= c < ta.len() && ta[c] == k;
            if c < i {
                assert(tb[c] == k);
            }
        }
        if b.contains(k) && k != s[i] {
            let c = choose|c: int| 0 <= c < tb.len() && tb[c] == k;
            assert(ta[c] == k);
        }
        if k == s[i] {
            assert(ta[i] == k);
        }
    }
    assert(a =~= b);
}

/// Inserting a new id at its place in the order adds it to the map.
proof fn lemma_view_insert(s: Seq<BatchImage>, i: int, x: BatchImage)
    requires
        images_ordered(s),
        0 <= i <= s.len(),
        forall|j: int| 0 <= j < i ==> lex_lt(#[trigger] s[j].id@, x.id@),
        forall|j: int| i <= j < s.len() ==> lex_lt(x.id@, #[trigger] s[j].id@),
    ensures
        images_ordered(s.insert(i, x)),
        images_view(s.insert(i, x)) == images_view(s).insert(x.id@, flags_of(x)),
        !images_view(s).dom().contains(x.id@),
{
    let t = s.insert(i, x);
    let ids = ids_of(s);
    let tids = ids_of(t);
    assert forall|a: int, b: int| 0 <= a < b < tids.len() implies lex_lt(
        #[trigger] tids[a],
        #[trigger] tids[b],
    ) by {
        if a < i && b < i {
            assert(tids[a] == ids[a] && tids[b] == ids[b]);
        } else if a < i && b == i {
            assert(tids[a] == s[a].id@);
        } else if a < i {
            assert(tids[a] == ids[a] && tids[b] == ids[b - 1]);
            assert(lex_lt(s[a].id@, x.id@));
            assert(lex_lt(x.id@, s[b - 1].id@));
            lemma_lex_transitive(s[a].id@, x.id@, s[b - 1].id@);
        } else if a == i {
            assert(tids[b] == s[b - 1].id@);
        } else {
            assert(tids[a] == ids[a - 1] && tids[b] == ids[b - 1]);
        }
    }
    assert(!images_view(s).dom().contains(x.id@)) by {
        if images_view(s).dom().contains(x.id@) {
            let c = choose|c: int| image_at(s, x.id@, c);
            if c < i {
                assert(lex_lt(s[c].id@, x.id@));
            } else {
                assert(lex_lt(x.id@, s[c].id@));
            }
            lemma_lex_irreflexive(x.id@);
        }
    }
    let m = images_view(t);
    let n = images_view(s).insert(x.id@, flags_of(x));
    assert forall|k: Seq<char>| m.dom().contains(k) <==> n.dom().contains(k) by {
        if m.dom().contains(k) {
            let c = choose|c: int| image_at(t, k, c);
            if c < i {
                assert(image_at(s, k, c));
            } else if c > i {
                assert(image_at(s, k, c - 1));
            }
        }
        if n.dom().contains(k) && k != x.id@ {
            let c = choose|c: int| image_at(s, k, c);
            if c < i {
                assert(image_at(t, k, c));
            } else {
                assert(image_at(t, k, c + 1));
            }
        }
        if k == x.id@ {
            assert(image_at(t, k, i));
        }
    }
    assert forall|k: Seq<char>| #[trigger] m.dom().contains(k) implies m[k] == n[k] by {
        let c = choose|c: int| image_at(t, k, c);
        lemma_view_at(t, c);
        if c < i {
            assert(t[c] == s[c]);
            lemma_view_at(s, c);
        } else if c > i {
            assert(t[c] == s[c - 1]);
            lemma_view_at(s, c - 1);
        }
    }
    assert(m =~= n);
}

/// Binary search for the id `key` among images ordered by id.
fn find_image(images: &Vec<BatchImage>, key: &Vec<char>) -> (r: Result<usize, usize>)
    requires
        images_ordered(images@),
    ensures
        match r {
            Ok(i) => i < images.len() && images@[i as int].id@ == key@,
            Err(i) => i <= images.len() && (forall|j: int|
                0 <= j < i ==> lex_lt(#[trigger] images@[j].id@, key@)) && (forall|j: int|
                i <= j < images.len() ==> lex_lt(key@, #[trigger] images@[j].id@)),
        },
{
    let mut lo: usize = 0;
    let mut hi: usize = images.len();
    while lo < hi
        invariant
            lo <= hi <= images.len(),
            images_ordered(images@),
            forall|j: int| 0 <= j < lo ==> lex_lt(#[trigger] images@[j].id@, key@),
            forall|j: int| hi <= j < images.len() ==> lex_lt(key@, #[trigger] images@[j].id@),
        decreases hi - lo,
    {
        let mid = lo + (hi - lo) / 2;
        let probe = chars_of(images[mid].id.as_str());
        if chars_eq(&probe, key) {
            return Ok(mid);
        }
        let ghost ids = ids_of(images@);
        if lex_less(&probe, key) {
            proof {
                assert forall|j: int| 0 <= j < mid + 1 implies lex_lt(
                    #[trigger] images@[j].id@,
                    key@,
                ) by {
                    if j < mid {
                        assert(ids[j] == images@[j].id@ && ids[mid as int] == images@[mid as int].id@);
                        lemma_lex_transitive(images@[j].id@, images@[mid as int].id@, key@);
                    }
                }
            }
            lo = mid + 1;
        } else {
            proof {
                lemma_lex_total(probe@, key@);
                assert forall|j: int| mid <= j < images.len() implies lex_lt(
                    key@,
                    #[trigger] images@[j].id@,
                ) by {
                    if j > mid {
                        assert(ids[j] == images@[j].id@ && ids[mid as int] == images@[mid as int].id@);
                        lemma_lex_transitive(key@, images@[mid as int].id@, images@[j].id@);
                    }
                }
            }
            hi = mid;
        }
    }
    Err(lo)
}

// ---------------------------------------------------------------- spec of the operations

/// All the given ids, each newly added.
pub open spec fn fresh_map(ids: Set<Seq<char>>) -> Map<Seq<char>, ImageFlags> {
    Map::new(|k: Seq<char>| ids.contains(k), |k: Seq<char>| fresh_flags())
}

/// The map with `ids` added as new images where they are not present yet.
pub open spec fn with_added(m: Map<Seq<char>, ImageFlags>, ids: Set<Seq<char>>) -> Map<
    Seq<char>,
    ImageFlags,
> {
    Map::new(
        |k: Seq<char>| m.dom().contains(k) || ids.contains(k),
        |k: Seq<char>|
            if m.dom().contains(k) {
                m[k]
            } else {
                fresh_flags()
            },
    )
}

/// Every image with its selection set to `selected`.
pub open spec fn with_selection(m: Map<Seq<char>, ImageFlags>, selected: bool) -> Map<
    Seq<char>,
    ImageFlags,
> {
    Map::new(
        |k: Seq<char>| m.dom().contains(k),
        |k: Seq<char>| ImageFlags { selected, ..m[k] },
    )
}

/// The image `id`, if present, changed by `f`.
pub open spec fn with_image_changed(
    m: Map<Seq<char>, ImageFlags>,
    id: Seq<char>,
    f: spec_fn(ImageFlags) -> ImageFlags,
) -> Map<Seq<char>, ImageFlags> {
    if m.dom().contains(id) {
        m.insert(id, f(m[id]))
    } else {
        m
    }
}

pub open spec fn toggled_selection(f: ImageFlags) -> ImageFlags {
    ImageFlags { selected: !f.selected, ..f }
}

pub open spec fn marked_processing(f: ImageFlags) -> ImageFlags {
    ImageFlags { status: ImageStatus::Processing, ..f }
}

pub open spec fn marked_processed(f: ImageFlags) -> ImageFlags {
    ImageFlags { status: ImageStatus::Processed, processed: true, ..f }
}

pub open spec fn marked_error(f: ImageFlags) -> ImageFlags {
    ImageFlags { status: ImageStatus::Error, processed: false, ..f }
}

/// The ids of the selected images.
pub open spec fn selected_keys(m: Map<Seq<char>, ImageFlags>) -> Set<Seq<char>> {
    m.dom().filter(|k: Seq<char>| m[k].selected)
}

/// Toggling the selection of one image twice leaves the workspace as it was.
pub proof fn lemma_toggle_twice_restores(m: Map<Seq<char>, ImageFlags>, id: Seq<char>)
    ensures
        with_image_changed(
            with_image_changed(m, id, |f: ImageFlags| toggled_selection(f)),
            id,
            |f: ImageFlags| toggled_selection(f),
        ) == m,
{
    let once = with_image_changed(m, id, |f: ImageFlags| toggled_selection(f));
    let twice = with_image_changed(once, id, |f: ImageFlags| toggled_selection(f));
    if m.dom().contains(id) {
        assert(twice =~= m);
    }
}

/// Selecting all makes every image selected; selecting none leaves none
/// selected.  Neither adds nor removes an image.
pub proof fn lemma_select_all_and_none(m: Map<Seq<char>, ImageFlags>)
    ensures
        with_selection(m, true).dom() == m.dom(),
        with_selection(m, false).dom() == m.dom(),
        selected_keys(with_selection(m, true)) == m.dom(),
        selected_keys(with_selection(m, false)) == Set::<Seq<char>>::empty(),
{
    assert(with_selection(m, true).dom() =~= m.dom());
    assert(with_selection(m, false).dom() =~= m.dom());
    assert(selected_keys(with_selection(m, true)) =~= m.dom());
    assert(selected_keys(with_selection(m, false)) =~= Set::<Seq<char>>::empty());
}

/// Newly set images are all selected; adding images keeps the state of those
/// already present and adds the new ones selected.
pub proof fn lemma_new_images_are_selected(m: Map<Seq<char>, ImageFlags>, ids: Set<Seq<char>>)
    ensures
        selected_keys(fresh_map(ids)) == ids,
        with_added(m, ids).dom() == m.dom().union(ids),
        forall|k: Seq<char>| #[trigger]
            m.dom().contains(k) ==> with_added(m, ids)[k] == m[k],
        selected_keys(with_added(m, ids)) == selected_keys(m).union(ids.difference(m.dom())),
{
    assert(selected_keys(fresh_map(ids)) =~= ids);
    assert(with_added(m, ids).dom() =~= m.dom().union(ids));
    assert(selected_keys(with_added(m, ids)) =~= selected_keys(m).union(
        ids.difference(m.dom()),
    ));
}

/// The selected images are among the images, so there are never more of them.
pub proof fn lemma_selected_within_images(m: Map<Seq<char>, ImageFlags>)
    requires
        m.dom().finite(),
    ensures
        selected_keys(m).subset_of(m.dom()),
        selected_keys(m).len() <= m.dom().len(),
{
    vstd::set_lib::lemma_len_subset(selected_keys(m), m.dom());
}

/// Marking one image changes only that image, and only as its meaning says:
/// processing sets the status; processed sets the status and the processed
/// flag; failed sets the status and clears the processed flag, whatever it
/// was before; the selection is kept.  An absent id changes nothing.
pub proof fn lemma_marks_set_status_and_processed(m: Map<Seq<char>, ImageFlags>, id: Seq<char>)
    ensures
        ({
            let p = with_image_changed(m, id, |f: ImageFlags| marked_processing(f));
            let d = with_image_changed(m, id, |f: ImageFlags| marked_processed(f));
            let e = with_image_changed(m, id, |f: ImageFlags| marked_error(f));
            &&& p.dom() == m.dom() && d.dom() == m.dom() && e.dom() == m.dom()
            &&& forall|k: Seq<char>| #[trigger] m.dom().contains(k) && k != id ==> p[k] == m[k]
                && d[k] == m[k] && e[k] == m[k]
            &&& m.dom().contains(id) ==> {
                &&& p[id].status == ImageStatus::Processing
                &&& p[id].processed == m[id].processed
                &&& p[id].selected == m[id].selected
                &&& d[id].status == ImageStatus::Processed
                &&& d[id].processed
                &&& d[id].selected == m[id].selected
                &&& e[id].status == ImageStatus::Error
                &&& !e[id].processed
                &&& e[id].selected == m[id].selected
            }
            &&& !m.dom().contains(id) ==> p == m && d == m && e == m
        }),
{
    let p = with_image_changed(m, id, |f: ImageFlags| marked_processing(f));
    let d = with_image_changed(m, id, |f: ImageFlags| marked_processed(f));
    let e = with_image_changed(m, id, |f: ImageFlags| marked_error(f));
    if m.dom().contains(id) {
        assert(p.dom() =~= m.dom());
        assert(d.dom() =~= m.dom());
        assert(e.dom() =~= m.dom());
    }
}

/// Toggling flips the selection of that image, and only of that image, and
/// leaves its status and processed flag as they were.
pub proof fn lemma_toggle_flips_selection(m: Map<Seq<char>, ImageFlags>, id: Seq<char>)
    ensures
        ({
            let t = with_image_changed(m, id, |f: ImageFlags| toggled_selection(f));
            &&& t.dom() == m.dom()
            &&& forall|k: Seq<char>| #[trigger] m.dom().contains(k) && k != id ==> t[k] == m[k]
            &&& m.dom().contains(id) ==> t[id].selected == !m[id].selected && t[id].status
                == m[id].status && t[id].processed == m[id].processed
        }),
{
    let t = with_image_changed(m, id, |f: ImageFlags| toggled_selection(f));
    if m.dom().contains(id) {
        assert(t.dom() =~= m.dom());
    }
}

impl View for BatchCoreState {
    type V = Map<Seq<char>, ImageFlags>;

    closed spec fn view(&self) -> Map<Seq<char>, ImageFlags> {
        images_view(self.images@)
    }
}

impl Default for BatchCoreState {
    fn default() -> (s: Self)
        ensures
            s@ == Map::<Seq<char>, ImageFlags>::empty(),
    {
        let s = BatchCoreState { images: Vec::new() };
        proof {
            assert(images_view(s.images@) =~= Map::<Seq<char>, ImageFlags>::empty());
        }
        s
    }
}

impl BatchCoreState {
    #[verifier::type_invariant]
    spec fn well_formed(self) -> bool {
        images_ordered(self.images@)
    }

    /// Replaces the images by the given ids, each newly added.
    pub fn set_images(&mut self, ids: Vec<String>)
        ensures
            final(self)@ == fresh_map(views(ids@).to_set()),
    {
        let sorted = sorted_distinct(&ids);
        let mut images: Vec<BatchImage> = Vec::new();
        let mut i: usize = 0;
        let ghost sv = views(sorted@);
        while i < sorted.len()
            invariant
                i <= sorted.len(),
                sv == views(sorted@),
                strictly_sorted(sv),
                images.len() == i,
                forall|j: int| 0 <= j < i ==> #[trigger] images@[j].id@ == sv[j],
                forall|j: int| 0 <= j < i ==> flags_of(#[trigger] images@[j]) == fresh_flags(),
            decreases sorted.len() - i,
        {
            images.push(BatchImage::new(sorted[i].clone()));
            i = i + 1;
        }
        proof {
            let s = images@;
            assert(ids_of(s) =~= sv);
            let m = images_view(s);
            let n = fresh_map(views(ids@).to_set());
            assert forall|k: Seq<char>| m.dom().contains(k) <==> n.dom().contains(k) by {
                if m.dom().contains(k) {
                    let c = choose|c: int| image_at(s, k, c);
                    assert(sv.to_set().contains(k));
                }
                if n.dom().contains(k) {
                    assert(sv.to_set().contains(k));
                    let c = choose|c: int| 0 <= c < sv.len() && sv[c] == k;
                    assert(image_at(s, k, c));
                }
            }
            assert forall|k: Seq<char>| #[trigger] m.dom().contains(k) implies m[k] == n[k] by {
                let c = choose|c: int| image_at(s, k, c);
                lemma_view_at(s, c);
            }
            assert(m =~= n);
        }
        self.images = images;
    }

    /// Adds the ids that are not present yet as new images; present ones keep
    /// their state.
    pub fn add_images(&mut self, ids: Vec<String>)
        ensures
            final(self)@ == with_added(old(self)@, views(ids@).to_set()),
    {
        proof {
            use_type_invariant(&*self);
        }
        let mut images: Vec<BatchImage> = Vec::new();
        std::mem::swap(&mut images, &mut self.images);
        let ghost start = images_view(images@);
        let mut i: usize = 0;
        let ghost iv = views(ids@);
        while i < ids.len()
            invariant
                i <= ids.len(),
                iv == views(ids@),
                images_ordered(images@),
                images_view(images@) == with_added(start, iv.take(i as int).to_set()),
            decreases ids.len() - i,
        {
            let key = chars_of(ids[i].as_str());
            let ghost before = images@;
            proof {
                lemma_take_to_set(iv, i as int);
            }
            match find_image(&images, &key) {
                Ok(at) => {
                    proof {
                        lemma_view_at(images@, at as int);
                        assert(with_added(start, iv.take(i + 1).to_set()) =~= with_added(
                            start,
                            iv.take(i as int).to_set(),
                        ));
                    }
                },
                Err(at) => {
                    let image = BatchImage::new(ids[i].clone());
                    proof {
                        lemma_view_insert(images@, at as int, image);
                        assert(with_added(start, iv.take(i + 1).to_set()) =~= with_added(
                            start,
                            iv.take(i as int).to_set(),
                        ).insert(image.id@, flags_of(image)));
                    }
                    images.insert(at, image);
                },
            }
            i = i + 1;
        }
        proof {
            assert(iv.take(ids.len() as int) == iv);
        }
        self.images = images;
    }

    fn set_all_selected(&mut self, selected: bool)
        ensures
            final(self)@ == with_selection(old(self)@, selected),
    {
        proof {
            use_type_invariant(&*self);
        }
        let mut images: Vec<BatchImage> = Vec::new();
        std::mem::swap(&mut images, &mut self.images);
        let ghost start = images@;
        let mut i: usize = 0;
        while i < images.len()
            invariant
                i <= images.len(),
                images.len() == start.len(),
                images_ordered(start),
                forall|j: int| 0 <= j < images.len() ==> #[trigger] images@[j].id@ == start[j].id@,
                forall|j: int|
                    0 <= j < i ==> flags_of(#[trigger] images@[j]) == (ImageFlags {
                        selected,
                        ..flags_of(start[j])
                    }),
                forall|j: int| i <= j < images.len() ==> #[trigger] images@[j] == start[j],
            decreases images.len() - i,
        {
            let mut image = images[i].clone_image();
            image.selected = selected;
            images.set(i, image);
            i = i + 1;
        }
        proof {
            assert(ids_of(images@) =~= ids_of(start));
            let m = images_view(images@);
            let n = with_selection(images_view(start), selected);
            assert forall|k: Seq<char>| m.dom().contains(k) <==> n.dom().contains(k) by {
                if m.dom().contains(k) {
                    let c = choose|c: int| image_at(images@, k, c);
                    assert(image_at(start, k, c));
                }
                if n.dom().contains(k) {
                    let c = choose|c: int| image_at(start, k, c);
                    assert(image_at(images@, k, c));
                }
            }
            assert forall|k: Seq<char>| #[trigger] m.dom().contains(k) implies m[k] == n[k] by {
                let c = choose|c: int| image_at(images@, k, c);
                lemma_view_at(images@, c);
                lemma_view_at(start, c);
            }
            assert(m =~= n);
        }
        self.images = images;
    }

    /// Selects every image.
    pub fn select_all(&mut self)
        ensures
            final(self)@ == with_selection(old(self)@, true),
    {
        self.set_all_selected(true);
    }

    /// Deselects every image.
    pub fn select_none(&mut self)
        ensures
            final(self)@ == with_selection(old(self)@, false),
    {
        self.set_all_selected(false);
    }

    fn change_image(&mut self, id: &str, op: u8)
        requires
            op < 4,
        ensures
            final(self)@ == with_image_changed(old(self)@, id@, image_change(op)),
    {
        proof {
            use_type_invariant(&*self);
        }
        let key = chars_of(id);
        let found = find_image(&self.images, &key);
        match found {
            Ok(at) => {
                let mut images: Vec<BatchImage> = Vec::new();
                std::mem::swap(&mut images, &mut self.images);
                let mut image = images[at].clone_image();
                if op == 0 {
                    image.selected = !image.selected;
                } else if op == 1 {
                    image.status = ImageStatus::Processing;
                } else if op == 2 {
                    image.status = ImageStatus::Processed;
                    image.processed = true;
                } else {
                    image.status = ImageStatus::Error;
                    image.processed = false;
                }
                proof {
                    lemma_view_at(images@, at as int);
                    lemma_view_update(images@, at as int, image);
                }
                images.set(at, image);
                self.images = images;
            },
            Err(at) => {
                proof {
                    if images_view(self.images@).dom().contains(id@) {
                        let c = choose|c: int| image_at(self.images@, id@, c);
                        if c < at {
                            assert(lex_lt(self.images@[c].id@, key@));
                        } else {
                            assert(lex_lt(key@, self.images@[c].id@));
                        }
                        lemma_lex_irreflexive(key@);
                    }
                }
            },
        }
    }

    /// Flips the selection of the image `id`, if present.
    pub fn toggle_selection(&mut self, id: &str)
        ensures
            final(self)@ == with_image_changed(old(self)@, id@, |f: ImageFlags| toggled_selection(f)),
    {
        self.change_image(id, 0);
        proof {
            assert(image_change(0) == |f: ImageFlags| toggled_selection(f));
        }
    }

    /// Marks the image `id`, if present, as being processed.
    pub fn mark_processing(&mut self, id: &str)
        ensures
            final(self)@ == with_image_changed(old(self)@, id@, |f: ImageFlags| marked_processing(f)),
    {
        self.change_image(id, 1);
        proof {
            assert(image_change(1) == |f: ImageFlags| marked_processing(f));
        }
    }

    /// Marks the image `id`, if present, as processed.
    pub fn mark_processed(&mut self, id: &str)
        ensures
            final(self)@ == with_image_changed(old(self)@, id@, |f: ImageFlags| marked_processed(f)),
    {
        self.change_image(id, 2);
        proof {
            assert(image_change(2) == |f: ImageFlags| marked_processed(f));
        }
    }

    /// Marks the image `id`, if present, as failed.
    pub fn mark_error(&mut self, id: &str)
        ensures
            final(self)@ == with_image_changed(old(self)@, id@, |f: ImageFlags| marked_error(f)),
    {
        self.change_image(id, 3);
        proof {
            assert(image_change(3) == |f: ImageFlags| marked_error(f));
        }
    }

    /// The image `id`, if present.
    pub fn get(&self, id: &str) -> (r: Option<&BatchImage>)
        ensures
            match r {
                Some(image) => self@.dom().contains(id@) && image.id@ == id@ && flags_of(*image)
                    == self@[id@],
                None => !self@.dom().contains(id@),
            },
    {
        proof {
            use_type_invariant(self);
        }
        let key = chars_of(id);
        match find_image(&self.images, &key) {
            Ok(at) => {
                proof {
                    lemma_view_at(self.images@, at as int);
                }
                Some(&self.images[at])
            },
            Err(at) => {
                proof {
                    if images_view(self.images@).dom().contains(id@) {
                        let c = choose|c: int| image_at(self.images@, id@, c);
                        if c < at {
                            assert(lex_lt(self.images@[c].id@, key@));
                        } else {
                            assert(lex_lt(key@, self.images@[c].id@));
                        }
                        lemma_lex_irreflexive(key@);
                    }
                }
                None
            },
        }
    }

    /// The ids of all images, in increasing order.
    pub fn ordered_ids(&self) -> (ids: Vec<String>)
        ensures
            strictly_sorted(views(ids@)),
            views(ids@).to_set() == self@.dom(),
    {
        proof {
            use_type_invariant(self);
            lemma_view_dom_is_ids(self.images@);
        }
        let ghost s = self.images@;
        let mut out: Vec<String> = Vec::new();
        let mut i: usize = 0;
        while i < self.images.len()
            invariant
                i <= self.images.len(),
                s == self.images@,
                views(out@) == ids_of(s).take(i as int),
            decreases self.images.len() - i,
        {
            let ghost prev = out@;
            out.push(self.images[i].id.clone());
            proof {
                assert(views(out@) =~= views(prev).push(s[i as int].id@));
                assert(ids_of(s).take(i + 1) =~= ids_of(s).take(i as int).push(s[i as int].id@));
            }
            i = i + 1;
        }
        proof {
            assert(ids_of(s).take(i as int) == ids_of(s));
        }
        out
    }

    /// The ids of the selected images, in increasing order.
    pub fn selected_ids(&self) -> (ids: Vec<String>)
        ensures
            strictly_sorted(views(ids@)),
            views(ids@).to_set() == selected_keys(self@),
    {
        proof {
            use_type_invariant(self);
        }
        let ghost s = self.images@;
        let mut out: Vec<String> = Vec::new();
        let mut i: usize = 0;
        while i < self.images.len()
            invariant
                i <= self.images.len(),
                s == self.images@,
                images_ordered(s),
                forall|p: int| 0 <= p < out.len() ==> exists|j: int| 0 <= j < i && s[j].selected && s[j].id@ == #[trigger] out@[p]@,
                forall|j: int| 0 <= j < i && #[trigger] s[j].selected ==> views(out@).contains(s[j].id@),
                strictly_sorted(views(out@)),
                out.len() > 0 ==> exists|j: int| 0 <= j < i && s[j].id@ == out@.last()@,
            decreases self.images.len() - i,
        {
            if self.images[i].selected {
                let ghost prev = out@;
                proof {
                    let ids = ids_of(s);
                    assert forall|p: int| 0 <= p < prev.len() implies lex_lt(#[trigger] views(prev)[p], s[i as int].id@) by {
                        let j = choose|j: int| 0 <= j < i && s[j].selected && s[j].id@ == prev[p]@;
                        assert(ids[j] == s[j].id@ && ids[i as int] == s[i as int].id@);
                    }
                }
                out.push(self.images[i].id.clone());
                proof {
                    let vo = views(out@);
                    assert forall|a: int, b: int| 0 <= a < b < vo.len() implies lex_lt(#[trigger] vo[a], #[trigger] vo[b]) by {
                        if b == vo.len() - 1 {
                            assert(vo[a] == views(prev)[a]);
                        } else {
                            assert(vo[a] == views(prev)[a] && vo[b] == views(prev)[b]);
                        }
                    }
                    assert forall|p: int| 0 <= p < out.len() implies exists|j: int| 0 <= j < i + 1 && s[j].selected && s[j].id@ == #[trigger] out@[p]@ by {
                        if p == out.len() - 1 {
                            assert(s[i as int].id@ == out@[p]@);
                        } else {
                            assert(out@[p] == prev[p]);
                        }
                    }
                    assert forall|j: int| 0 <= j < i + 1 && #[trigger] s[j].selected implies views(out@).contains(s[j].id@) by {
                        if j == i {
                            assert(vo[vo.len() - 1] == s[j].id@);
                        } else {
                            let p = choose|p: int| 0 <= p < views(prev).len() && views(prev)[p] == s[j].id@;
                            assert(vo[p] == views(prev)[p]);
                        }
                    }
                }
            }
            i = i + 1;
        }
        proof {
            let vo = views(out@);
            let m = images_view(s);
            assert forall|k: Seq<char>| vo.to_set().contains(k) <==> selected_keys(m).contains(k) by {
                if vo.to_set().contains(k) {
                    let p = choose|p: int| 0 <= p < vo.len() && vo[p] == k;
                    assert(out@[p]@ == vo[p]);
                    let j = choose|j: int| 0 <= j < s.len() && s[j].selected && s[j].id@ == out@[p]@;
                    lemma_view_at(s, j);
                }
                if selected_keys(m).contains(k) {
                    let c = choose|c: int| image_at(s, k, c);
                    lemma_view_at(s, c);
                }
            }
            assert(vo.to_set() =~= selected_keys(m));
        }
        out
    }
}

/// The change made by `change_image` for each operation code.
pub open spec fn image_change(op: u8) -> spec_fn(ImageFlags) -> ImageFlags {
    if op == 0 {
        |f: ImageFlags| toggled_selection(f)
    } else if op == 1 {
        |f: ImageFlags| marked_processing(f)
    } else if op == 2 {
        |f: ImageFlags| marked_processed(f)
    } else {
        |f: ImageFlags| marked_error(f)
    }
}

impl BatchImage {
    /// A copy of the image with the same id and state.
    pub fn clone_image(&self) -> (c: BatchImage)
        ensures
            c.id@ == self.id@,
            flags_of(c) == flags_of(*self),
            c == *self,
    {
        BatchImage {
            id: self.id.clone(),
            selected: self.selected,
            processed: self.processed,
            status: self.status,
        }
    }
}

proof fn lemma_view_dom_is_ids(s: Seq<BatchImage>)
    ensures
        images_view(s).dom() == ids_of(s).to_set(),
        images_view(s).dom().finite(),
{
    let d = images_view(s).dom();
    let t = ids_of(s).to_set();
    assert forall|k: Seq<char>| d.contains(k) <==> t.contains(k) by {
        if d.contains(k) {
            let c = choose|c: int| image_at(s, k, c);
            assert(ids_of(s)[c] == k);
        }
        if t.contains(k) {
            let c = choose|c: int| 0 <= c < ids_of(s).len() && ids_of(s)[c] == k;
            assert(image_at(s, k, c));
        }
    }
    assert(d =~= t);
    ids_of(s).lemma_cardinality_of_set();
}

// ---------------------------------------------------------------- counting

/// Strictly sorted sequences have no repeats, so as many distinct elements as
/// entries.
pub proof fn lemma_sorted_no_duplicates(s: Seq<Seq<char>>)
    requires
        strictly_sorted(s),
    ensures
        s.no_duplicates(),
        s.to_set().len() == s.len(),
{
    assert forall|i: int, j: int| 0 <= i < s.len() && 0 <= j < s.len() && i != j implies s[i]
        != s[j] by {
        if i < j {
            assert(lex_lt(s[i], s[j]));
        } else {
            assert(lex_lt(s[j], s[i]));
        }
        lemma_lex_irreflexive(s[i]);
    }
    s.unique_seq_to_set();
}

impl BatchCoreState {
    /// The number of selected images.
    pub fn selected_count(&self) -> (n: usize)
        ensures
            n == selected_keys(self@).len(),
    {
        let ids = self.selected_ids();
        proof {
            lemma_sorted_no_duplicates(views(ids@));
        }
        ids.len()
    }

    /// The number of images.
    pub fn total_count(&self) -> (n: usize)
        ensures
            n == self@.dom().len(),
            self@.dom().finite(),
    {
        proof {
            use_type_invariant(self);
            lemma_view_dom_is_ids(self.images@);
            lemma_sorted_no_duplicates(ids_of(self.images@));
        }
        self.images.len()
    }

    /// Whether any image is selected.
    pub fn has_selected_images(&self) -> (b: bool)
        ensures
            b == (selected_keys(self@).len() > 0),
    {
        self.selected_count() > 0
    }

    /// The selected ids, in increasing order, cut into chunks of
    /// `max(preferred_chunk_size, 1)`.
    pub fn build_work_plan(&self, preferred_chunk_size: usize) -> (plan: BatchWorkPlan)
        ensures
            plan.chunk_size == (if preferred_chunk_size == 0 {
                1
            } else {
                preferred_chunk_size
            }),
            plan.selected_total == selected_keys(self@).len(),
            strictly_sorted(chunk_views(plan.chunks@).flatten()),
            chunk_views(plan.chunks@).flatten().to_set() == selected_keys(self@),
            chunk_views(plan.chunks@) == chunked(
                chunk_views(plan.chunks@).flatten(),
                plan.chunk_size as nat,
            ),
    {
        let selected_ids = self.selected_ids();
        let selected_total = selected_ids.len();
        let chunk_size = if preferred_chunk_size == 0 {
            1
        } else {
            preferred_chunk_size
        };
        let chunks = chunk_strings(selected_ids.as_slice(), chunk_size);
        proof {
            lemma_sorted_no_duplicates(views(selected_ids@));
            lemma_flatten_chunked(views(selected_ids@), chunk_size as nat);
        }
        BatchWorkPlan { selected_total, chunk_size, chunks }
    }

    /// Bytes of RGBA preview buffers for `buffered_images` previews, each
    /// product saturating.
    pub fn estimate_preview_memory_bytes(
        preview_width: usize,
        preview_height: usize,
        buffered_images: usize,
    ) -> (bytes: usize)
        ensures
            bytes == preview_memory_bytes(
                preview_width as nat,
                preview_height as nat,
                buffered_images as nat,
            ),
    {
        let pixels_per_image = saturating_mul(preview_width, preview_height);
        let rgba_bytes_per_image = saturating_mul(pixels_per_image, 4);
        saturating_mul(rgba_bytes_per_image, buffered_images)
    }

    /// How many files load at once and how many wait in pages.
    pub fn build_lazy_load_plan(total_files: usize, preferred_page_size: usize) -> (plan:
        BatchLazyLoadPlan)
        ensures
            plan == lazy_load_plan(total_files as nat, preferred_page_size as nat),
    {
        let page_size = if preferred_page_size == 0 {
            1
        } else {
            preferred_page_size
        };
        let initial_load_count = if total_files < page_size {
            total_files
        } else {
            page_size
        };
        let queued_files = total_files - initial_load_count;
        let queued_pages = if queued_files == 0 {
            0
        } else {
            let whole = queued_files / page_size;
            proof {
                lemma_ceil_div(queued_files as nat, page_size as nat);
            }
            if queued_files % page_size != 0 {
                whole + 1
            } else {
                whole
            }
        };
        BatchLazyLoadPlan { total_files, page_size, initial_load_count, queued_files, queued_pages }
    }
}

/// `a * b`, or `usize::MAX` when that overflows.
pub open spec fn saturating_product(a: nat, b: nat) -> nat {
    if a * b > usize::MAX {
        usize::MAX as nat
    } else {
        a * b
    }
}

pub open spec fn preview_memory_bytes(width: nat, height: nat, buffered: nat) -> nat {
    saturating_product(saturating_product(saturating_product(width, height), 4), buffered)
}

/// The preview memory estimate is four bytes per pixel per buffered image,
/// exactly, whenever that product fits in `usize`.
pub proof fn lemma_preview_memory_is_linear(width: nat, height: nat, buffered: nat)
    requires
        width * height * 4 * buffered <= usize::MAX,
    ensures
        preview_memory_bytes(width, height, buffered) == width * height * 4 * buffered,
{
    if buffered > 0 {
        assert(width * height * 4 <= width * height * 4 * buffered) by (nonlinear_arith)
            requires
                buffered >= 1,
        ;
        assert(width * height <= width * height * 4) by (nonlinear_arith);
    } else {
        assert(width * height * 4 * buffered == 0) by (nonlinear_arith)
            requires
                buffered == 0,
        ;
    }
}

fn saturating_mul(a: usize, b: usize) -> (r: usize)
    ensures
        r == saturating_product(a as nat, b as nat),
{
    match a.checked_mul(b) {
        Some(p) => p,
        None => usize::MAX,
    }
}

/// `⌈a / b⌉` for `b > 0`.
pub open spec fn ceil_div(a: nat, b: nat) -> nat {
    (a + b - 1) as nat / b
}

proof fn lemma_ceil_div(a: nat, b: nat)
    requires
        b > 0,
    ensures
        ceil_div(a, b) == a / b + (if a % b != 0 {
            1nat
        } else {
            0nat
        }),
{
    let q = a / b;
    let r = a % b;
    vstd::arithmetic::div_mod::lemma_fundamental_div_mod(a as int, b as int);
    if r == 0 {
        vstd::arithmetic::div_mod::lemma_fundamental_div_mod_converse(
            (a + b - 1) as int,
            b as int,
            q as int,
            (b - 1) as int,
        );
    } else {
        assert((a + b - 1) as int == (q + 1) * b + (r - 1)) by (nonlinear_arith)
            requires
                a == b * q + r,
                r >= 1,
        ;
        vstd::arithmetic::div_mod::lemma_fundamental_div_mod_converse(
            (a + b - 1) as int,
            b as int,
            (q + 1) as int,
            (r - 1) as int,
        );
    }
}

pub open spec fn lazy_load_plan(total_files: nat, preferred_page_size: nat) -> BatchLazyLoadPlan {
    let page = if preferred_page_size == 0 {
        1
    } else {
        preferred_page_size
    };
    let initial = if total_files < page {
        total_files
    } else {
        page
    };
    let queued = (total_files - initial) as nat;
    BatchLazyLoadPlan {
        total_files: total_files as usize,
        page_size: page as usize,
        initial_load_count: initial as usize,
        queued_files: queued as usize,
        queued_pages: (if queued == 0 {
            0
        } else {
            ceil_div(queued, page)
        }) as usize,
    }
}

/// The plan accounts for every file: the first page plus the queued ones, and
/// just enough queued pages to hold the queued files.
pub proof fn lemma_lazy_load_plan_accounts_for_all(total_files: nat, preferred_page_size: nat)
    requires
        total_files <= usize::MAX,
        preferred_page_size <= usize::MAX,
    ensures
        ({
            let plan = lazy_load_plan(total_files, preferred_page_size);
            &&& plan.initial_load_count + plan.queued_files == total_files
            &&& plan.initial_load_count <= plan.page_size
            &&& plan.queued_pages * plan.page_size >= plan.queued_files
            &&& plan.queued_pages > 0 ==> (plan.queued_pages - 1) * plan.page_size
                < plan.queued_files
        }),
{
    let plan = lazy_load_plan(total_files, preferred_page_size);
    let p = plan.page_size as nat;
    let q = plan.queued_files as nat;
    if q > 0 {
        lemma_ceil_div(q, p);
        let d = q / p;
        let r = q % p;
        vstd::arithmetic::div_mod::lemma_fundamental_div_mod(q as int, p as int);
        assert(plan.queued_pages == d + (if r != 0 {
            1nat
        } else {
            0nat
        }));
        assert(q == p * d + r);
        if r != 0 {
            assert((d + 1) * p >= q) by (nonlinear_arith)
                requires
                    q == p * d + r,
                    r < p,
            ;
            assert(d * p < q) by (nonlinear_arith)
                requires
                    q == p * d + r,
                    r > 0,
            ;
        } else {
            assert(d * p >= q) by (nonlinear_arith)
                requires
                    q == p * d + r,
                    r == 0,
            ;
            assert(d > 0) by (nonlinear_arith)
                requires
                    q == p * d,
                    q > 0,
            ;
            assert((d - 1) * p < q) by (nonlinear_arith)
                requires
                    q == p * d,
                    p > 0,
                    d > 0,
            ;
        }
    }
}

// ---------------------------------------------------------------- chunks and the queue

/// `s` cut into consecutive pieces of `n`, the last one possibly shorter.
pub open spec fn chunked(s: Seq<Seq<char>>, n: nat) -> Seq<Seq<Seq<char>>>
    decreases s.len(),
{
    if n == 0 || s.len() == 0 {
        Seq::empty()
    } else if s.len() <= n {
        seq![s]
    } else {
        seq![s.take(n as int)] + chunked(s.skip(n as int), n)
    }
}

/// A work plan stays chunked: there are `ceil(len / n)` chunks, and every
/// chunk but the last holds exactly `n` elements.
pub proof fn lemma_chunks_are_full(s: Seq<Seq<char>>, n: nat)
    requires
        n > 0,
    ensures
        chunked(s, n).len() == ceil_div(s.len(), n),
        forall|i: int| 0 <= i < chunked(s, n).len() - 1 ==> (#[trigger] chunked(s, n)[i]).len() == n,
    decreases s.len(),
{
    if s.len() == 0 {
        assert(ceil_div(0, n) == 0) by {
            assert((n - 1) as nat / n == 0) by (nonlinear_arith)
                requires
                    n > 0,
            ;
        }
    } else if s.len() <= n {
        assert(ceil_div(s.len(), n) == 1) by {
            let x = (s.len() + n - 1) as nat;
            assert(n <= x < 2 * n);
            vstd::arithmetic::div_mod::lemma_div_plus_one((x - n) as int, n as int);
            assert((x - n) as nat / n == 0) by (nonlinear_arith)
                requires
                    x - n < n,
                    x >= n,
                    n > 0,
            ;
        }
    } else {
        let rest = s.skip(n as int);
        lemma_chunks_are_full(rest, n);
        let x = (rest.len() + n - 1) as int;
        vstd::arithmetic::div_mod::lemma_div_plus_one(x, n as int);
        assert((s.len() + n - 1) as int == n + x);
        let c = chunked(s, n);
        assert(c == seq![s.take(n as int)] + chunked(rest, n));
        assert forall|i: int| 0 <= i < c.len() - 1 implies (#[trigger] c[i]).len() == n by {
            if i > 0 {
                assert(c[i] == chunked(rest, n)[i - 1]);
            }
        }
    }
}

/// The views of a sequence of string lists.
pub open spec fn chunk_views(v: Seq<Vec<String>>) -> Seq<Seq<Seq<char>>> {
    v.map_values(|c: Vec<String>| views(c@))
}

/// Cutting into chunks keeps every element, in order, and every chunk holds
/// between one and `n` elements.
pub proof fn lemma_flatten_chunked(s: Seq<Seq<char>>, n: nat)
    requires
        n > 0,
    ensures
        chunked(s, n).flatten() == s,
        forall|i: int|
            0 <= i < chunked(s, n).len() ==> 1 <= (#[trigger] chunked(s, n)[i]).len() <= n,
    decreases s.len(),
{
    if s.len() == 0 {
    } else if s.len() <= n {
        seq![s].lemma_flatten_one_element();
    } else {
        lemma_flatten_chunked(s.skip(n as int), n);
        let c = chunked(s, n);
        let rest = chunked(s.skip(n as int), n);
        assert(c.drop_first() == rest);
        assert(c.first() == s.take(n as int));
        assert(s.take(n as int) + s.skip(n as int) == s);
        assert forall|i: int| 0 <= i < c.len() implies 1 <= (#[trigger] c[i]).len() <= n by {
            if i > 0 {
                assert(c[i] == rest[i - 1]);
            }
        }
    }
}

/// `v[from..to]`, cloned.
pub(crate) fn clone_range(v: &[String], from: usize, to: usize) -> (out: Vec<String>)
    requires
        from <= to <= v@.len(),
    ensures
        views(out@) == views(v@).subrange(from as int, to as int),
{
    let mut out: Vec<String> = Vec::new();
    let mut i = from;
    while i < to
        invariant
            from <= i <= to <= v@.len(),
            views(out@) == views(v@).subrange(from as int, i as int),
        decreases to - i,
    {
        let ghost prev = out@;
        out.push(v[i].clone());
        proof {
            assert(views(out@) =~= views(prev).push(v@[i as int]@));
            assert(views(v@).subrange(from as int, i + 1) =~= views(v@).subrange(
                from as int,
                i as int,
            ).push(v@[i as int]@));
        }
        i = i + 1;
    }
    out
}

/// The strings of `ids` in chunks of `size`.
fn chunk_strings(ids: &[String], size: usize) -> (out: Vec<Vec<String>>)
    requires
        size > 0,
    ensures
        chunk_views(out@) == chunked(views(ids@), size as nat),
{
    let ghost all = views(ids@);
    let mut out: Vec<Vec<String>> = Vec::new();
    let mut i: usize = 0;
    proof {
        assert(all.skip(0) == all);
    }
    while i < ids.len()
        invariant
            i <= ids@.len(),
            size > 0,
            all == views(ids@),
            chunk_views(out@) + chunked(all.skip(i as int), size as nat) == chunked(
                all,
                size as nat,
            ),
        decreases ids@.len() - i,
    {
        let rest_len = ids.len() - i;
        let end = if rest_len <= size {
            ids.len()
        } else {
            i + size
        };
        let chunk = clone_range(ids, i, end);
        let ghost prev = out@;
        let ghost rest = all.skip(i as int);
        out.push(chunk);
        proof {
            assert(chunk_views(out@) =~= chunk_views(prev).push(views(chunk@)));
            if rest_len <= size {
                assert(views(chunk@) =~= rest);
                assert(all.skip(end as int).len() == 0);
                assert(chunked(rest, size as nat) == seq![rest]);
                assert(chunk_views(out@) + chunked(all.skip(end as int), size as nat)
                    =~= chunk_views(prev) + seq![rest]);
            } else {
                assert(views(chunk@) =~= rest.take(size as int));
                assert(rest.skip(size as int) =~= all.skip(end as int));
                assert(chunked(rest, size as nat) == seq![rest.take(size as int)] + chunked(
                    rest.skip(size as int),
                    size as nat,
                ));
                assert(chunk_views(out@) + chunked(all.skip(end as int), size as nat)
                    =~= chunk_views(prev) + chunked(rest, size as nat));
            }
        }
        i = end;
    }
    proof {
        assert(all.skip(ids@.len() as int).len() == 0);
        assert(chunk_views(out@) + Seq::<Seq<Seq<char>>>::empty() == chunk_views(out@));
    }
    out
}

/// Every id of a queue: the loaded ones, then the queued pages in order.
pub open spec fn queue_contents(loaded: Seq<Seq<char>>, queued: Seq<Seq<Seq<char>>>) -> Seq<
    Seq<char>,
> {
    loaded + queued.flatten()
}

/// Total number of ids over the pages.
pub open spec fn total_len(pages: Seq<Vec<String>>) -> nat
    decreases pages.len(),
{
    if pages.len() == 0 {
        0
    } else {
        total_len(pages.drop_last()) + pages.last()@.len()
    }
}

impl Default for BatchQueueState {
    fn default() -> (q: Self)
        ensures
            q.page_size == 0,
            q.loaded_ids@.len() == 0,
            q.queued_pages@.len() == 0,
    {
        BatchQueueState { page_size: 0, loaded_ids: Vec::new(), queued_pages: Vec::new() }
    }
}

impl BatchQueueState {
    /// Loads the first page of `ids` and queues the rest in pages of
    /// `max(preferred_page_size, 1)`.
    pub fn from_files(ids: &[String], preferred_page_size: usize) -> (q: Self)
        ensures
            q.page_size == (if preferred_page_size == 0 {
                1
            } else {
                preferred_page_size
            }),
            ({
                let c = chunked(views(ids@), q.page_size as nat);
                &&& views(q.loaded_ids@) == (if c.len() == 0 {
                    Seq::empty()
                } else {
                    c[0]
                })
                &&& chunk_views(q.queued_pages@) == (if c.len() == 0 {
                    c
                } else {
                    c.drop_first()
                })
            }),
            queue_contents(views(q.loaded_ids@), chunk_views(q.queued_pages@)) == views(ids@),
    {
        let page_size = if preferred_page_size == 0 {
            1
        } else {
            preferred_page_size
        };
        let mut chunks = chunk_strings(ids, page_size);
        proof {
            lemma_flatten_chunked(views(ids@), page_size as nat);
        }
        let ghost c = chunk_views(chunks@);
        let loaded_ids = if chunks.len() > 0 {
            let first = chunks.remove(0);
            proof {
                assert(chunk_views(chunks@) =~= c.drop_first());
                assert(c.flatten() == c.first() + c.drop_first().flatten());
            }
            first
        } else {
            proof {
                assert(c.flatten() == Seq::<Seq<char>>::empty());
                assert(views(ids@) == Seq::<Seq<char>>::empty());
            }
            Vec::new()
        };
        proof {
            assert(views(loaded_ids@) =~= (if c.len() == 0 {
                Seq::<Seq<char>>::empty()
            } else {
                c[0]
            }));
        }
        BatchQueueState { page_size, loaded_ids, queued_pages: chunks }
    }

    pub fn queued_pages_count(&self) -> (n: usize)
        ensures
            n == self.queued_pages@.len(),
    {
        self.queued_pages.len()
    }

    /// The number of queued ids.
    pub fn queued_files_count(&self) -> (n: usize)
        requires
            total_len(self.queued_pages@) <= usize::MAX,
        ensures
            n == total_len(self.queued_pages@),
    {
        let mut total: usize = 0;
        let mut i: usize = 0;
        while i < self.queued_pages.len()
            invariant
                i <= self.queued_pages@.len(),
                total == total_len(self.queued_pages@.take(i as int)),
                total_len(self.queued_pages@) <= usize::MAX,
            decreases self.queued_pages@.len() - i,
        {
            proof {
                assert(self.queued_pages@.take(i + 1).drop_last() == self.queued_pages@.take(
                    i as int,
                ));
                lemma_total_len_prefix(self.queued_pages@, i + 1);
            }
            total = total + self.queued_pages[i].len();
            i = i + 1;
        }
        proof {
            assert(self.queued_pages@.take(i as int) == self.queued_pages@);
        }
        total
    }

    /// Moves the first queued page to the loaded ids and hands it out.
    pub fn dequeue_next_page(&mut self) -> (page: Option<Vec<String>>)
        ensures
            match page {
                None => old(self).queued_pages@.len() == 0 && *final(self) == *old(self),
                Some(p) => {
                    &&& old(self).queued_pages@.len() > 0
                    &&& p == old(self).queued_pages@[0]
                    &&& final(self).queued_pages@ == old(self).queued_pages@.drop_first()
                    &&& views(final(self).loaded_ids@) == views(old(self).loaded_ids@) + views(p@)
                    &&& final(self).page_size == old(self).page_size
                },
            },
    {
        if self.queued_pages.len() == 0 {
            return None;
        }
        let page = self.queued_pages.remove(0);
        proof {
            assert(self.queued_pages@ =~= old(self).queued_pages@.drop_first());
        }
        let mut k: usize = 0;
        let ghost start = views(self.loaded_ids@);
        while k < page.len()
            invariant
                k <= page.len(),
                self.queued_pages@ == old(self).queued_pages@.drop_first(),
                self.page_size == old(self).page_size,
                start == views(old(self).loaded_ids@),
                views(self.loaded_ids@) == start + views(page@).take(k as int),
            decreases page.len() - k,
        {
            let ghost prev = self.loaded_ids@;
            self.loaded_ids.push(page[k].clone());
            proof {
                assert(views(self.loaded_ids@) =~= views(prev).push(page@[k as int]@));
                assert(views(page@).take(k + 1) =~= views(page@).take(k as int).push(
                    page@[k as int]@,
                ));
            }
            k = k + 1;
        }
        proof {
            assert(views(page@).take(page.len() as int) == views(page@));
        }
        Some(page)
    }
}

proof fn lemma_total_len_prefix(pages: Seq<Vec<String>>, i: int)
    requires
        0 <= i <= pages.len(),
    ensures
        total_len(pages.take(i)) <= total_len(pages),
    decreases pages.len() - i,
{
    if i < pages.len() {
        lemma_total_len_prefix(pages, i + 1);
        assert(pages.take(i + 1).drop_last() == pages.take(i));
    } else {
        assert(pages.take(i) == pages);
    }
}

/// Dequeuing a page moves it from the queue to the loaded ids: the ids of the
/// queue, taken in order, stay the same.
pub proof fn lemma_dequeue_keeps_queue_contents(
    loaded: Seq<Seq<char>>,
    queued: Seq<Seq<Seq<char>>>,
)
    requires
        queued.len() > 0,
    ensures
        queue_contents(loaded + queued[0], queued.drop_first()) == queue_contents(loaded, queued),
{
    assert(queued.flatten() == queued.first() + queued.drop_first().flatten());
    assert(loaded + queued[0] + queued.drop_first().flatten() == loaded + (queued[0]
        + queued.drop_first().flatten()));
}

// ---------------------------------------------------------------- runtime statistics

/// Counters and recent history of a batch run.  The last downscale factor is
/// an `f64`, kept here by its IEEE-754 bit pattern.
#[derive(Clone, Debug, PartialEq)]
pub struct BatchRuntimeStats {
    pub total_faces_detected: u64,
    pub images_processed: u64,
    pub successful_processing: u64,
    pub processing_times_ms: Vec<u64>,
    pub last_export_time_ms: Option<u64>,
    pub detected_backend: String,
    pub last_image_dimensions: Option<(u32, u32)>,
    pub last_downscale_factor_bits: u64,
    pub logs: Vec<String>,
}

/// The bit pattern of the `f64` value `1.0`.
pub open spec fn f64_one_bits() -> u64 {
    0x3FF0_0000_0000_0000
}

/// The last `n` elements of `s` (all of them when there are fewer).
pub open spec fn last_n<T>(s: Seq<T>, n: nat) -> Seq<T> {
    if s.len() > n {
        s.skip(s.len() - n)
    } else {
        s
    }
}

/// `a + b`, or `u64::MAX` when that overflows.
pub open spec fn saturating_sum_u64(a: nat, b: nat) -> nat {
    if a + b > u64::MAX {
        u64::MAX as nat
    } else {
        a + b
    }
}

/// The sum of the numbers.
pub open spec fn sum_u64(s: Seq<u64>) -> nat
    decreases s.len(),
{
    if s.len() == 0 {
        0
    } else {
        sum_u64(s.drop_last()) + (s.last() as nat)
    }
}

/// `((part as f64 / whole as f64) * 100.0).round()`, capped, and 0 for an
/// empty whole.
pub open spec fn rounded_percent(part: nat, whole: nat, cap: nat) -> nat {
    if whole == 0 {
        0
    } else {
        let r = float_round(float_mul_nat(float_div(f64_of(part), f64_of(whole), 53), 100, 53));
        if r > cap {
            cap
        } else {
            r
        }
    }
}

/// `(sum as f64 / count as f64).round()`, capped, and 0 for no samples.
pub open spec fn rounded_mean(sum: nat, count: nat, cap: nat) -> nat {
    if count == 0 {
        0
    } else {
        let r = float_round(float_div(f64_of(sum), f64_of(count), 53));
        if r > cap {
            cap
        } else {
            r
        }
    }
}

pub fn rounded_percent_exec(part: u64, whole: u64, cap: u64) -> (r: u64)
    ensures
        r == rounded_percent(part as nat, whole as nat, cap as nat),
{
    if whole == 0 {
        return 0;
    }
    proof {
        lemma_pow2_table();
    }
    let a = float_of_u64(part, 53);
    let b = float_of_u64(whole, 53);
    let q = float_div_exec(a, b, 53);
    let v = float_mul_u64(q, 100, 53);
    float_round_capped(v, cap)
}

pub fn rounded_mean_exec(sum: u64, count: u64, cap: u64) -> (r: u64)
    ensures
        r == rounded_mean(sum as nat, count as nat, cap as nat),
{
    if count == 0 {
        return 0;
    }
    proof {
        lemma_pow2_table();
    }
    let a = float_of_u64(sum, 53);
    let b = float_of_u64(count, 53);
    let q = float_div_exec(a, b, 53);
    float_round_capped(q, cap)
}

/// `v` with `x` appended and only the last `cap` elements kept.
pub fn push_keeping_last<T: Clone>(v: Vec<T>, x: T, cap: usize) -> (out: Vec<T>)
    requires
        cap > 0,
        v@.len() < usize::MAX,
    ensures
        out@ == last_n(v@.push(x), cap as nat),
{
    let mut v = v;
    v.push(x);
    if v.len() <= cap {
        return v;
    }
    let overflow = v.len() - cap;
    let ghost all = v@;
    let rest = v.split_off(overflow);
    proof {
        assert(rest@ =~= last_n(all, cap as nat));
    }
    rest
}

/// The sum of the timings, when it fits in `u64`.
pub fn sum_times(times: &Vec<u64>) -> (s: u64)
    requires
        sum_u64(times@) <= u64::MAX,
    ensures
        s == sum_u64(times@),
{
    let mut total: u64 = 0;
    let mut i: usize = 0;
    while i < times.len()
        invariant
            i <= times.len(),
            total == sum_u64(times@.take(i as int)),
            sum_u64(times@) <= u64::MAX,
        decreases times.len() - i,
    {
        proof {
            assert(times@.take(i + 1).drop_last() == times@.take(i as int));
            lemma_sum_u64_prefix(times@, i + 1);
        }
        total = total + times[i];
        i = i + 1;
    }
    proof {
        assert(times@.take(i as int) == times@);
    }
    total
}

pub proof fn lemma_sum_u64_prefix(s: Seq<u64>, i: int)
    requires
        0 <= i <= s.len(),
    ensures
        sum_u64(s.take(i)) <= sum_u64(s),
    decreases s.len() - i,
{
    if i < s.len() {
        lemma_sum_u64_prefix(s, i + 1);
        assert(s.take(i + 1).drop_last() == s.take(i));
    } else {
        assert(s.take(i) == s);
    }
}

/// The statistics of a run that has not started: no counts, the ready line in
/// the log, a downscale factor of one.
pub open spec fn is_fresh_stats(s: BatchRuntimeStats) -> bool {
    &&& s.total_faces_detected == 0
    &&& s.images_processed == 0
    &&& s.successful_processing == 0
    &&& s.processing_times_ms@.len() == 0
    &&& s.last_export_time_ms is None
    &&& s.detected_backend@.len() == 0
    &&& s.last_image_dimensions is None
    &&& s.last_downscale_factor_bits == f64_one_bits()
    &&& views(s.logs@) == seq!["Ready to process images..."@]
}

impl Default for BatchRuntimeStats {
    fn default() -> (s: Self)
        ensures
            is_fresh_stats(s),
    {
        let mut logs: Vec<String> = Vec::new();
        logs.push(String::from_str("Ready to process images..."));
        let s = BatchRuntimeStats {
            total_faces_detected: 0,
            images_processed: 0,
            successful_processing: 0,
            processing_times_ms: Vec::new(),
            last_export_time_ms: None,
            detected_backend: String::new(),
            last_image_dimensions: None,
            last_downscale_factor_bits: 0x3FF0_0000_0000_0000,
            logs,
        };
        proof {
            assert(views(s.logs@) =~= seq!["Ready to process images..."@]);
        }
        s
    }
}

impl BatchRuntimeStats {
    /// Counts one processed image (counters saturate) and keeps its time among
    /// the last fifty.
    pub fn record_image(&mut self, processing_time_ms: u64, faces_detected: u32, success: bool)
        requires
            old(self).processing_times_ms@.len() < usize::MAX,
        ensures
            final(self).images_processed == saturating_sum_u64(old(self).images_processed as nat, 1),
            final(self).total_faces_detected == saturating_sum_u64(
                old(self).total_faces_detected as nat,
                faces_detected as nat,
            ),
            final(self).successful_processing == (if success {
                saturating_sum_u64(old(self).successful_processing as nat, 1)
            } else {
                old(self).successful_processing as nat
            }),
            final(self).processing_times_ms@ == last_n(
                old(self).processing_times_ms@.push(processing_time_ms),
                50,
            ),
            final(self).logs == old(self).logs,
            final(self).last_export_time_ms == old(self).last_export_time_ms,
            final(self).detected_backend == old(self).detected_backend,
            final(self).last_image_dimensions == old(self).last_image_dimensions,
            final(self).last_downscale_factor_bits == old(self).last_downscale_factor_bits,
    {
        self.images_processed = self.images_processed.saturating_add(1);
        self.total_faces_detected = self.total_faces_detected.saturating_add(faces_detected as u64);
        if success {
            self.successful_processing = self.successful_processing.saturating_add(1);
        }
        let mut times: Vec<u64> = Vec::new();
        std::mem::swap(&mut times, &mut self.processing_times_ms);
        self.processing_times_ms = push_keeping_last(times, processing_time_ms, 50);
    }

    /// Successful share of the processed images, in percent.
    pub fn success_rate_pct(&self) -> (r: u32)
        ensures
            r == rounded_percent(
                self.successful_processing as nat,
                self.images_processed as nat,
                u32::MAX as nat,
            ),
    {
        rounded_percent_exec(self.successful_processing, self.images_processed, u32::MAX as u64)
            as u32
    }

    /// Mean of the kept timings, rounded.
    pub fn avg_processing_time_ms(&self) -> (r: u64)
        requires
            sum_u64(self.processing_times_ms@) <= u64::MAX,
        ensures
            r == rounded_mean(
                sum_u64(self.processing_times_ms@),
                self.processing_times_ms@.len(),
                u64::MAX as nat,
            ),
    {
        let sum = sum_times(&self.processing_times_ms);
        rounded_mean_exec(sum, self.processing_times_ms.len() as u64, u64::MAX)
    }

    pub fn record_export(&mut self, time_ms: u64)
        ensures
            *final(self) == (BatchRuntimeStats { last_export_time_ms: Some(time_ms), ..*old(self) }),
    {
        self.last_export_time_ms = Some(time_ms);
    }

    /// Remembers the first detection backend reported.
    pub fn record_backend(&mut self, backend: &str)
        ensures
            final(self).detected_backend@ == (if old(self).detected_backend@.len() == 0 {
                backend@
            } else {
                old(self).detected_backend@
            }),
            *final(self) == (BatchRuntimeStats {
                detected_backend: final(self).detected_backend,
                ..*old(self)
            }),
    {
        if self.detected_backend.as_str().is_empty() {
            self.detected_backend = String::from_str(backend);
        }
    }

    pub fn record_image_size(&mut self, width: u32, height: u32, downscale_bits: u64)
        ensures
            *final(self) == (BatchRuntimeStats {
                last_image_dimensions: Some((width, height)),
                last_downscale_factor_bits: downscale_bits,
                ..*old(self)
            }),
    {
        self.last_image_dimensions = Some((width, height));
        self.last_downscale_factor_bits = downscale_bits;
    }

    /// Appends a log line, keeping the last hundred.
    pub fn push_log(&mut self, message: &str)
        requires
            old(self).logs@.len() < usize::MAX,
        ensures
            views(final(self).logs@) == last_n(views(old(self).logs@).push(message@), 100),
            *final(self) == (BatchRuntimeStats { logs: final(self).logs, ..*old(self) }),
    {
        let mut logs: Vec<String> = Vec::new();
        std::mem::swap(&mut logs, &mut self.logs);
        let line = String::from_str(message);
        let ghost before = logs@;
        let kept = push_keeping_last(logs, line, 100);
        proof {
            assert(views(kept@) =~= last_n(views(before).push(message@), 100));
        }
        self.logs = kept;
    }

    pub fn reset(&mut self)
        ensures
            is_fresh_stats(*final(self)),
    {
        *self = Self::default();
    }
}

/// The kept timings never exceed fifty.
pub proof fn lemma_record_image_keeps_fifty_times(times: Seq<u64>, t: u64)
    ensures
        last_n(times.push(t), 50).len() <= 50,
{
}

/// Recording an image keeps the successes within the processed images.
pub proof fn lemma_record_image_keeps_successes_within_processed(
    successful: nat,
    processed: nat,
    success: bool,
)
    requires
        successful <= processed <= u64::MAX,
    ensures
        (if success {
            saturating_sum_u64(successful, 1)
        } else {
            successful
        }) <= saturating_sum_u64(processed, 1),
{
}

/// While the successes do not outnumber the processed images, the success
/// rate is at most one hundred percent.
pub proof fn lemma_success_rate_at_most_hundred(successful: nat, processed: nat, cap: nat)
    requires
        successful <= processed,
    ensures
        rounded_percent(successful, processed, cap) <= 100,
{
    if processed > 0 {
        crate::binary_float::lemma_hundredfold_ratio_at_most_hundred(successful, processed);
    }
}

} // verus!
