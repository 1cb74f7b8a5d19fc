//! Decisions of the application shell: which page a path opens, how the theme
//! is stored and applied, labels and output names of files, and the checks on
//! saved-settings names.
use crate::base_core::file_stem;
use crate::base_ui::ThemeMode;
use crate::ordered::{sorted_distinct, strictly_sorted, views};
use crate::text::{
    chars_of, decimal, ends_with, has_prefix, has_suffix, matches_at, push_decimal, push_range,
    push_str, replace_all, replace_str, str_eq, string_from_range, trim, trim_bounds,
};
use vstd::prelude::*;

verus! {

/// The page that a path opens.
#[derive(Clone, Copy, Debug, PartialEq, Eq, Structural)]
pub enum RouteTarget {
    Landing,
    Single,
    Batch,
    Csv,
    Panels,
}

/// Paths ending in a mode's route, or in its older `.html` page, open that mode.
pub open spec fn route_of(path: Seq<char>) -> RouteTarget {
    if has_suffix(path, "/single"@) || has_suffix(path, "/single-processing.html"@) {
        RouteTarget::Single
    } else if has_suffix(path, "/batch"@) || has_suffix(path, "/batch-processing.html"@) {
        RouteTarget::Batch
    } else if has_suffix(path, "/csv"@) || has_suffix(path, "/csv-processing.html"@) {
        RouteTarget::Csv
    } else if has_suffix(path, "/_panels"@) {
        RouteTarget::Panels
    } else {
        RouteTarget::Landing
    }
}

fn path_ends_with(path: &Vec<char>, suffix: &str) -> (b: bool)
    ensures
        b == has_suffix(path@, suffix@),
{
    let s = chars_of(suffix);
    ends_with(path, &s)
}

pub fn route_for_path(path: &str) -> (r: RouteTarget)
    ensures
        r == route_of(path@),
{
    let p = chars_of(path);
    if path_ends_with(&p, "/single") || path_ends_with(&p, "/single-processing.html") {
        RouteTarget::Single
    } else if path_ends_with(&p, "/batch") || path_ends_with(&p, "/batch-processing.html") {
        RouteTarget::Batch
    } else if path_ends_with(&p, "/csv") || path_ends_with(&p, "/csv-processing.html") {
        RouteTarget::Csv
    } else if path_ends_with(&p, "/_panels") {
        RouteTarget::Panels
    } else {
        RouteTarget::Landing
    }
}

/// Each mode's older `.html` page opens the same page as its route.
pub proof fn lemma_legacy_pages_match_routes(prefix: Seq<char>)
    ensures
        route_of(prefix + "/single-processing.html"@) == RouteTarget::Single,
        route_of(prefix + "/batch-processing.html"@) == route_of(prefix + "/batch"@),
        route_of(prefix + "/csv-processing.html"@) == route_of(prefix + "/csv"@),
{
    reveal_strlit("/single");
    reveal_strlit("/single-processing.html");
    reveal_strlit("/batch");
    reveal_strlit("/batch-processing.html");
    reveal_strlit("/csv");
    reveal_strlit("/csv-processing.html");
    reveal_strlit("/_panels");
    let s = prefix + "/single-processing.html"@;
    assert(s.skip(s.len() - "/single-processing.html"@.len()) =~= "/single-processing.html"@);
    let b1 = prefix + "/batch-processing.html"@;
    let b2 = prefix + "/batch"@;
    assert(b1.skip(b1.len() - "/batch-processing.html"@.len()) =~= "/batch-processing.html"@);
    assert(b2.skip(b2.len() - "/batch"@.len()) =~= "/batch"@);
    assert(!has_suffix(b1, "/single"@)) by {
        if has_suffix(b1, "/single"@) {
            assert(b1.skip(b1.len() - 7)[1] == "/single"@[1]);
            assert(b1[b1.len() - 6] == 'i');
        }
    }
    assert(!has_suffix(b1, "/single-processing.html"@)) by {
        if has_suffix(b1, "/single-processing.html"@) {
            assert(b1.skip(b1.len() - 23)[1] == "/single-processing.html"@[1]);
        }
    }
    assert(!has_suffix(b2, "/single"@)) by {
        if has_suffix(b2, "/single"@) {
            assert(b2.skip(b2.len() - 7)[6] == "/single"@[6]);
        }
    }
    assert(!has_suffix(b2, "/single-processing.html"@)) by {
        if has_suffix(b2, "/single-processing.html"@) {
            assert(b2.skip(b2.len() - 23)[22] == "/single-processing.html"@[22]);
        }
    }
    let c1 = prefix + "/csv-processing.html"@;
    let c2 = prefix + "/csv"@;
    assert(c1.skip(c1.len() - "/csv-processing.html"@.len()) =~= "/csv-processing.html"@);
    assert(c2.skip(c2.len() - "/csv"@.len()) =~= "/csv"@);
    assert(!has_suffix(c1, "/single"@)) by {
        if has_suffix(c1, "/single"@) {
            assert(c1.skip(c1.len() - 7)[6] == "/single"@[6]);
        }
    }
    assert(!has_suffix(c1, "/single-processing.html"@)) by {
        if has_suffix(c1, "/single-processing.html"@) {
            assert(c1.skip(c1.len() - 23)[6] == "/single-processing.html"@[6]);
            assert(c1[c1.len() - 17] == 'v');
        }
    }
    assert(!has_suffix(c1, "/batch"@)) by {
        if has_suffix(c1, "/batch"@) {
            assert(c1.skip(c1.len() - 6)[5] == "/batch"@[5]);
        }
    }
    assert(!has_suffix(c1, "/batch-processing.html"@)) by {
        if has_suffix(c1, "/batch-processing.html"@) {
            assert(c1.skip(c1.len() - 22)[5] == "/batch-processing.html"@[5]);
            assert(c1[c1.len() - 17] == 'v');
        }
    }
    assert(!has_suffix(c2, "/single"@)) by {
        if has_suffix(c2, "/single"@) {
            assert(c2.skip(c2.len() - 7)[6] == "/single"@[6]);
        }
    }
    assert(!has_suffix(c2, "/single-processing.html"@)) by {
        if has_suffix(c2, "/single-processing.html"@) {
            assert(c2.skip(c2.len() - 23)[22] == "/single-processing.html"@[22]);
        }
    }
    assert(!has_suffix(c2, "/batch"@)) by {
        if has_suffix(c2, "/batch"@) {
            assert(c2.skip(c2.len() - 6)[5] == "/batch"@[5]);
        }
    }
    assert(!has_suffix(c2, "/batch-processing.html"@)) by {
        if has_suffix(c2, "/batch-processing.html"@) {
            assert(c2.skip(c2.len() - 22)[21] == "/batch-processing.html"@[21]);
        }
    }
}

// ---------------------------------------------------------------- theme in the browser

/// The theme read back from storage: light exactly for `"light"`, dark
/// otherwise (dark is the default).
pub open spec fn theme_of_saved(value: Option<Seq<char>>) -> ThemeMode {
    if value == Some("light"@) {
        ThemeMode::Light
    } else {
        ThemeMode::Dark
    }
}

/// The value stored for a theme.
pub open spec fn saved_theme(mode: ThemeMode) -> Seq<char> {
    match mode {
        ThemeMode::Light => "light"@,
        ThemeMode::Dark => "dark"@,
    }
}

/// The `data-theme` attribute the document root carries: `light` for light,
/// none for dark.
pub open spec fn theme_attribute_of(mode: ThemeMode) -> Option<Seq<char>> {
    match mode {
        ThemeMode::Light => Some("light"@),
        ThemeMode::Dark => None,
    }
}

pub fn theme_mode_from_saved(value: Option<&str>) -> (mode: ThemeMode)
    ensures
        mode == theme_of_saved(
            match value {
                Some(s) => Some(s@),
                None => None,
            },
        ),
{
    match value {
        Some(s) => if str_eq(s, "light") {
            ThemeMode::Light
        } else {
            ThemeMode::Dark
        },
        None => ThemeMode::Dark,
    }
}

pub fn saved_theme_value(mode: ThemeMode) -> (s: &'static str)
    ensures
        s@ == saved_theme(mode),
{
    match mode {
        ThemeMode::Light => "light",
        ThemeMode::Dark => "dark",
    }
}

pub fn theme_attribute(mode: ThemeMode) -> (a: Option<&'static str>)
    ensures
        match a {
            Some(s) => theme_attribute_of(mode) == Some(s@),
            None => theme_attribute_of(mode) is None,
        },
{
    match mode {
        ThemeMode::Light => Some("light"),
        ThemeMode::Dark => None,
    }
}

/// A stored theme reads back as itself.
pub proof fn lemma_saved_theme_round_trip(mode: ThemeMode)
    ensures
        theme_of_saved(Some(saved_theme(mode))) == mode,
{
    reveal_strlit("light");
    reveal_strlit("dark");
    if mode == ThemeMode::Dark {
        assert("dark"@[0] != "light"@[0]);
    }
}

// ---------------------------------------------------------------- file labels and names

/// The text before the first `::` (all of it when there is none).
pub open spec fn before_double_colon(s: Seq<char>) -> Seq<char>
    decreases s.len(),
{
    if s.len() == 0 || has_prefix(s, "::"@) {
        Seq::empty()
    } else {
        seq![s[0]] + before_double_colon(s.drop_first())
    }
}

proof fn lemma_before_double_colon(s: Seq<char>, i: int)
    requires
        0 <= i <= s.len(),
        forall|k: int| 0 <= k < i ==> !has_prefix(#[trigger] s.skip(k), "::"@),
        i == s.len() || has_prefix(s.skip(i), "::"@),
    ensures
        before_double_colon(s) == s.take(i),
    decreases i,
{
    if i > 0 {
        assert(s.skip(0) == s);
        assert forall|k: int| 0 <= k < i - 1 implies !has_prefix(
            #[trigger] s.drop_first().skip(k),
            "::"@,
        ) by {
            assert(s.drop_first().skip(k) == s.skip(k + 1));
        }
        assert(s.drop_first().skip(i - 1) == s.skip(i));
        lemma_before_double_colon(s.drop_first(), i - 1);
        assert(s.take(i) == seq![s[0]] + s.drop_first().take(i - 1));
    } else {
        assert(s.skip(0) == s);
    }
}

/// The file part of an id `<file>::<suffix>`.
pub fn batch_file_label(id: &str) -> (label: String)
    ensures
        label@ == before_double_colon(id@),
{
    let v = chars_of(id);
    let sep = chars_of("::");
    proof {
        reveal_strlit("::");
    }
    let mut i: usize = 0;
    while i < v.len() && !matches_at(&v, i, &sep)
        invariant
            i <= v.len(),
            sep@ == "::"@,
            forall|k: int| 0 <= k < i ==> !has_prefix(#[trigger] v@.skip(k), "::"@),
        decreases v.len() - i,
    {
        proof {
            reveal_strlit("::");
            let t = v@.skip(i as int);
            if has_prefix(t, "::"@) {
                assert(t.take(2) =~= v@.subrange(i as int, i + 2));
            }
        }
        i = i + 1;
    }
    proof {
        reveal_strlit("::");
        if i < v.len() {
            assert(v@.skip(i as int).take(2) =~= v@.subrange(i as int, i + 2));
        }
        lemma_before_double_colon(v@, i as int);
        assert(v@.take(i as int) == v@.subrange(0, i as int));
    }
    string_from_range(&v, 0, i)
}

/// A naming template with its variables replaced, in this order: the name
/// without extension, the one-based index, the timestamp, the width and the
/// height.
pub open spec fn rendered_name(
    template: Seq<char>,
    original_file_name: Seq<char>,
    index_zero_based: nat,
    output_width: nat,
    output_height: nat,
    timestamp_ms: nat,
) -> Seq<char> {
    let a = replace_all(template, "{original}"@, file_stem(original_file_name));
    let b = replace_all(a, "{index}"@, decimal(index_zero_based + 1));
    let c = replace_all(b, "{timestamp}"@, decimal(timestamp_ms));
    let d = replace_all(c, "{width}"@, decimal(output_width));
    replace_all(d, "{height}"@, decimal(output_height))
}

pub fn render_naming_template(
    template: &str,
    original_file_name: &str,
    index_zero_based: usize,
    output_width: u32,
    output_height: u32,
    timestamp_ms: u64,
) -> (name: String)
    requires
        index_zero_based < usize::MAX,
    ensures
        name@ == rendered_name(
            template@,
            original_file_name@,
            index_zero_based as nat,
            output_width as nat,
            output_height as nat,
            timestamp_ms as nat,
        ),
{
    proof {
        reveal_strlit("{original}");
        reveal_strlit("{index}");
        reveal_strlit("{timestamp}");
        reveal_strlit("{width}");
        reveal_strlit("{height}");
    }
    let original = crate::base_core::stem_text(original_file_name);
    let index_text = crate::text::decimal_string((index_zero_based + 1) as u128);
    let time_text = crate::text::decimal_string(timestamp_ms as u128);
    let width_text = crate::text::decimal_string(output_width as u128);
    let height_text = crate::text::decimal_string(output_height as u128);
    let a = replace_str(template, "{original}", original.as_str());
    let b = replace_str(a.as_str(), "{index}", index_text.as_str());
    let c = replace_str(b.as_str(), "{timestamp}", time_text.as_str());
    let d = replace_str(c.as_str(), "{width}", width_text.as_str());
    replace_str(d.as_str(), "{height}", height_text.as_str())
}

// ---------------------------------------------------------------- saved settings

/// The key under which settings are saved: the trimmed name, which must not
/// be empty.
pub open spec fn settings_key(name: Seq<char>) -> Result<Seq<char>, Seq<char>> {
    if trim(name).len() == 0 {
        Err("Settings name cannot be empty"@)
    } else {
        Ok(trim(name))
    }
}

pub fn settings_name_key(name: &str) -> (r: Result<String, String>)
    ensures
        match r {
            Ok(k) => settings_key(name@) == Ok::<Seq<char>, Seq<char>>(k@),
            Err(e) => settings_key(name@) == Err::<Seq<char>, Seq<char>>(e@),
        },
{
    let v = chars_of(name);
    let (from, to) = trim_bounds(&v, 0, v.len());
    proof {
        assert(v@.subrange(0, v.len() as int) == v@);
    }
    if from == to {
        Err(String::from_str("Settings name cannot be empty"))
    } else {
        Ok(string_from_range(&v, from, to))
    }
}

/// The saved names (distinct, as the keys of a map) in increasing order.
pub fn sorted_setting_names(names: Vec<String>) -> (sorted: Vec<String>)
    requires
        views(names@).no_duplicates(),
    ensures
        strictly_sorted(views(sorted@)),
        views(sorted@).to_set() == views(names@).to_set(),
        sorted@.len() == names@.len(),
{
    let out = sorted_distinct(&names);
    proof {
        crate::batch_core::lemma_sorted_no_duplicates(views(out@));
        views(names@).unique_seq_to_set();
    }
    out
}

} // verus!
