//! Small presentation rules shared by the pages: file names, HTML escaping,
//! status lines, image ids, size presets, aspect-ratio labels and the theme.
use crate::binary_float::{
    bit_len, float_div, float_div_exec, float_hundredths, float_hundredths_exec, float_of_nat,
    float_of_u64, is_normal, lemma_bit_len_le, lemma_pow2_table, within_tolerance,
    within_tolerance_exec,
};
use crate::text::{
    digit_char,
    chars_of, decimal, hex, is_white_space, lemma_hex_len, pow16, push_char, push_decimal,
    push_hex, push_range, push_str, str_eq, string_from_range, trim, trim_bounds, zero_pad,
};
use vstd::prelude::*;

verus! {

#[derive(Clone, Copy, Debug, PartialEq, Eq, Structural)]
pub enum SizePresetName {
    LinkedIn,
    Passport,
    Instagram,
    IdCard,
    Avatar,
    Headshot,
    Custom,
}

#[derive(Clone, Copy, Debug, PartialEq, Eq, Structural)]
pub enum ThemeMode {
    Light,
    Dark,
}

// ---------------------------------------------------------------- file names

pub open spec fn is_path_separator(c: char) -> bool {
    c == '/' || c == '\\'
}

/// The last component of a path whose separators are `/` or `\`.
pub open spec fn file_name_of(path: Seq<char>) -> Seq<char>
    decreases path.len(),
{
    if path.len() == 0 {
        path
    } else if is_path_separator(path.last()) {
        Seq::empty()
    } else {
        file_name_of(path.drop_last()).push(path.last())
    }
}

proof fn lemma_file_name_of_suffix(path: Seq<char>, j: int)
    requires
        0 <= j <= path.len(),
        j == 0 || is_path_separator(path[j - 1]),
        forall|k: int| j <= k < path.len() ==> !is_path_separator(#[trigger] path[k]),
    ensures
        file_name_of(path) == path.skip(j),
    decreases path.len(),
{
    if path.len() == j {
        if j > 0 {
            assert(path.last() == path[j - 1]);
        }
    } else {
        lemma_file_name_of_suffix(path.drop_last(), j);
        assert(path.skip(j) == path.drop_last().skip(j).push(path.last()));
    }
}

/// The file name at the end of `file_path` (the text after the last `/` or `\`).
pub fn extract_file_name(file_path: &str) -> (name: String)
    ensures
        name@ == file_name_of(file_path@),
{
    let v = chars_of(file_path);
    let mut i = v.len();
    while i > 0 && !(v[i - 1] == '/' || v[i - 1] == '\\')
        invariant
            i <= v.len(),
            forall|k: int| i <= k < v.len() ==> !is_path_separator(#[trigger] v@[k]),
        decreases i,
    {
        i = i - 1;
    }
    proof {
        lemma_file_name_of_suffix(v@, i as int);
        assert(v@.skip(i as int) == v@.subrange(i as int, v.len() as int));
    }
    string_from_range(&v, i, v.len())
}

// ---------------------------------------------------------------- HTML

/// The HTML entity text that stands for `c` in escaped output.
pub open spec fn escape_char(c: char) -> Seq<char> {
    if c == '&' {
        "&amp;"@
    } else if c == '<' {
        "&lt;"@
    } else if c == '>' {
        "&gt;"@
    } else if c == '"' {
        "&quot;"@
    } else if c == '\'' {
        "&#39;"@
    } else {
        seq![c]
    }
}

/// `text` with each of `& < > " '` replaced by its entity.
pub open spec fn escaped_html(text: Seq<char>) -> Seq<char>
    decreases text.len(),
{
    if text.len() == 0 {
        Seq::empty()
    } else {
        escaped_html(text.drop_last()) + escape_char(text.last())
    }
}

/// Escapes the five characters that HTML treats specially.
pub fn escape_html(text: &str) -> (out: String)
    ensures
        out@ == escaped_html(text@),
{
    let v = chars_of(text);
    let mut out = String::new();
    let mut i: usize = 0;
    while i < v.len()
        invariant
            i <= v.len(),
            out@ == escaped_html(v@.take(i as int)),
        decreases v.len() - i,
    {
        let c = v[i];
        proof {
            assert(v@.take(i + 1).drop_last() == v@.take(i as int));
            assert(v@.take(i + 1).last() == c);
        }
        if c == '&' {
            push_str(&mut out, "&amp;");
        } else if c == '<' {
            push_str(&mut out, "&lt;");
        } else if c == '>' {
            push_str(&mut out, "&gt;");
        } else if c == '"' {
            push_str(&mut out, "&quot;");
        } else if c == '\'' {
            push_str(&mut out, "&#39;");
        } else {
            push_char(&mut out, c);
        }
        i = i + 1;
    }
    proof {
        assert(v@.take(v.len() as int) == v@);
    }
    out
}

/// No character of the escaped text is one of `< > " '`, whatever the input.
pub proof fn lemma_escaped_html_has_no_markup(text: Seq<char>)
    ensures
        forall|k: int|
            0 <= k < escaped_html(text).len() ==> {
                let c = #[trigger] escaped_html(text)[k];
                c != '<' && c != '>' && c != '"' && c != '\''
            },
    decreases text.len(),
{
    reveal_strlit("&amp;");
    reveal_strlit("&lt;");
    reveal_strlit("&gt;");
    reveal_strlit("&quot;");
    reveal_strlit("&#39;");
    if text.len() > 0 {
        lemma_escaped_html_has_no_markup(text.drop_last());
        let a = escaped_html(text.drop_last());
        let b = escape_char(text.last());
        assert forall|k: int| 0 <= k < (a + b).len() implies {
            let c = #[trigger] (a + b)[k];
            c != '<' && c != '>' && c != '"' && c != '\''
        } by {
            if k >= a.len() {
                assert((a + b)[k] == b[k - a.len()]);
            } else {
                assert((a + b)[k] == a[k]);
            }
        }
    }
}

// ---------------------------------------------------------------- status lines

/// The text of `message` before its first `.` (all of it when there is none).
pub open spec fn before_first_period(message: Seq<char>) -> Seq<char>
    decreases message.len(),
{
    if message.len() == 0 {
        message
    } else if message[0] == '.' {
        Seq::empty()
    } else {
        seq![message[0]] + before_first_period(message.drop_first())
    }
}

proof fn lemma_before_first_period(s: Seq<char>, i: int)
    requires
        0 <= i <= s.len(),
        i == s.len() || s[i] == '.',
        forall|k: int| 0 <= k < i ==> #[trigger] s[k] != '.',
    ensures
        before_first_period(s) == s.take(i),
    decreases i,
{
    if i > 0 {
        lemma_before_first_period(s.drop_first(), i - 1);
        assert(s.take(i) == seq![s[0]] + s.drop_first().take(i - 1));
    } else {
        if s.len() > 0 {
            assert(s[0] == '.');
        }
    }
}

/// The first sentence of a status message, trimmed: the short form shown in
/// compact status areas.
pub fn processing_status_short(message: &str) -> (out: String)
    ensures
        out@ == trim(before_first_period(message@)),
{
    let v = chars_of(message);
    let mut i: usize = 0;
    while i < v.len() && v[i] != '.'
        invariant
            i <= v.len(),
            forall|k: int| 0 <= k < i ==> #[trigger] v@[k] != '.',
        decreases v.len() - i,
    {
        i = i + 1;
    }
    proof {
        lemma_before_first_period(v@, i as int);
        assert(v@.take(i as int) == v@.subrange(0, i as int));
    }
    let (from, to) = trim_bounds(&v, 0, i);
    string_from_range(&v, from, to)
}

// ---------------------------------------------------------------- image ids

/// `img_<timestamp>_<sequence as nine lower-case hex digits>`.
pub open spec fn image_id(timestamp_ms: nat, sequence: nat) -> Seq<char> {
    "img_"@ + decimal(timestamp_ms) + "_"@ + zero_pad(hex(sequence), 9)
}

/// The id given to an image added at `timestamp_ms` as the `sequence`-th one.
pub fn generate_image_id(timestamp_ms: u64, sequence: u32) -> (id: String)
    ensures
        id@ == image_id(timestamp_ms as nat, sequence as nat),
{
    let mut out = String::new();
    push_str(&mut out, "img_");
    push_decimal(&mut out, timestamp_ms as u128);
    push_str(&mut out, "_");
    let ghost before = out@;
    let mut digits = String::new();
    push_hex(&mut digits, sequence as u128);
    proof {
        reveal_with_fuel(pow16, 9);
        assert(pow16(8) == 0x1_0000_0000);
        lemma_hex_len(sequence as nat, 8);
    }
    let dv = chars_of(digits.as_str());
    let pad = 9 - dv.len();
    let mut k: usize = 0;
    while k < pad
        invariant
            k <= pad,
            out@ == before + Seq::new(k as nat, |i: int| '0'),
        decreases pad - k,
    {
        push_char(&mut out, '0');
        proof {
            assert(Seq::new((k + 1) as nat, |i: int| '0') == Seq::new(k as nat, |i: int| '0').push(
                '0',
            ));
        }
        k = k + 1;
    }
    push_range(&mut out, &dv, 0, dv.len());
    proof {
        assert(dv@.subrange(0, dv.len() as int) == dv@);
        assert(before + Seq::new(pad as nat, |i: int| '0') + dv@ == before + (Seq::new(
            pad as nat,
            |i: int| '0',
        ) + dv@));
    }
    out
}

// ---------------------------------------------------------------- presets

/// The named preset whose dimensions are exactly `width × height`.
pub open spec fn matching_preset(width: nat, height: nat) -> SizePresetName {
    if width == 400 && height == 400 {
        SizePresetName::LinkedIn
    } else if width == 413 && height == 531 {
        SizePresetName::Passport
    } else if width == 1080 && height == 1080 {
        SizePresetName::Instagram
    } else if width == 332 && height == 498 {
        SizePresetName::IdCard
    } else if width == 512 && height == 512 {
        SizePresetName::Avatar
    } else if width == 600 && height == 800 {
        SizePresetName::Headshot
    } else {
        SizePresetName::Custom
    }
}

pub fn find_matching_preset(width: u32, height: u32) -> (r: SizePresetName)
    ensures
        r == matching_preset(width as nat, height as nat),
{
    if width == 400 && height == 400 {
        SizePresetName::LinkedIn
    } else if width == 413 && height == 531 {
        SizePresetName::Passport
    } else if width == 1080 && height == 1080 {
        SizePresetName::Instagram
    } else if width == 332 && height == 498 {
        SizePresetName::IdCard
    } else if width == 512 && height == 512 {
        SizePresetName::Avatar
    } else if width == 600 && height == 800 {
        SizePresetName::Headshot
    } else {
        SizePresetName::Custom
    }
}

// ---------------------------------------------------------------- theme

pub open spec fn toggled(mode: ThemeMode) -> ThemeMode {
    match mode {
        ThemeMode::Light => ThemeMode::Dark,
        ThemeMode::Dark => ThemeMode::Light,
    }
}

/// What is kept in storage for a theme: `"dark"` for dark, nothing for light.
pub open spec fn stored_theme(mode: ThemeMode) -> Option<Seq<char>> {
    match mode {
        ThemeMode::Dark => Some("dark"@),
        ThemeMode::Light => None,
    }
}

/// The theme that a stored value selects: dark exactly for `"dark"`.
pub open spec fn theme_of_stored(value: Option<Seq<char>>) -> ThemeMode {
    if value == Some("dark"@) {
        ThemeMode::Dark
    } else {
        ThemeMode::Light
    }
}

pub fn toggle_theme(mode: ThemeMode) -> (r: ThemeMode)
    ensures
        r == toggled(mode),
{
    match mode {
        ThemeMode::Light => ThemeMode::Dark,
        ThemeMode::Dark => ThemeMode::Light,
    }
}

pub fn theme_storage_value(mode: ThemeMode) -> (r: Option<&'static str>)
    ensures
        match r {
            Some(s) => stored_theme(mode) == Some(s@),
            None => stored_theme(mode) is None,
        },
{
    match mode {
        ThemeMode::Dark => Some("dark"),
        ThemeMode::Light => None,
    }
}

pub fn theme_from_storage(value: Option<&str>) -> (r: ThemeMode)
    ensures
        r == theme_of_stored(
            match value {
                Some(s) => Some(s@),
                None => None,
            },
        ),
{
    match value {
        Some(s) => {
            if str_eq(s, "dark") {
                ThemeMode::Dark
            } else {
                ThemeMode::Light
            }
        },
        None => ThemeMode::Light,
    }
}

/// Toggling the theme twice gives the theme back.
pub proof fn lemma_toggle_theme_involution(mode: ThemeMode)
    ensures
        toggled(toggled(mode)) == mode,
{
}

/// Toggling always changes the theme.
pub proof fn lemma_toggle_theme_changes(mode: ThemeMode)
    ensures
        toggled(mode) != mode,
{
}

/// Reading back what was stored for a theme gives that theme.
pub proof fn lemma_theme_storage_round_trip(mode: ThemeMode)
    ensures
        theme_of_stored(stored_theme(mode)) == mode,
{
}

// ---------------------------------------------------------------- aspect ratio

/// `n` as an `f32`.
pub open spec fn f32_of(n: nat) -> (nat, int) {
    float_of_nat(n, 24)
}

/// `a as f32 / b as f32`.
pub open spec fn f32_quotient(a: nat, b: nat) -> (nat, int) {
    float_div(f32_of(a), f32_of(b), 24)
}

/// Text of a number of hundredths with two decimals: `150` is `1.50`.
pub open spec fn two_decimals(hundredths: nat) -> Seq<char> {
    decimal(hundredths / 100) + "."@ + seq![
        digit_char((hundredths % 100) / 10),
        digit_char(hundredths % 10),
    ]
}

/// The name of the ratio `width : height`.  The ratio is the `f32` quotient;
/// it is compared with the `f32` values of `1`, `4/3`, `16/9` and `3/4` within
/// the `f32` value of `0.01` (their differences are exact in `f32`: they lie
/// within a factor of two of each other or far outside the tolerance), and
/// otherwise shown with two decimals.
pub open spec fn ratio_label(width: nat, height: nat) -> Seq<char> {
    if width == 0 || height == 0 {
        "0.00:1"@
    } else {
        let q = f32_quotient(width, height);
        let t = f32_quotient(1, 100);
        if within_tolerance(q, f32_of(1), t) {
            "1:1 (Square)"@
        } else if within_tolerance(q, f32_quotient(4, 3), t) {
            "4:3 (Standard)"@
        } else if within_tolerance(q, f32_quotient(16, 9), t) {
            "16:9 (Widescreen)"@
        } else if within_tolerance(q, f32_quotient(3, 4), t) {
            "3:4 (Portrait)"@
        } else {
            two_decimals(float_hundredths(q)) + ":1"@
        }
    }
}

/// `n` as an `f32`, for `n` that fits in 32 bits.
fn f32_of_exec(n: u64) -> (r: (u64, i32))
    requires
        n < 0x1_0000_0000,
    ensures
        (r.0 as nat, r.1 as int) == f32_of(n as nat),
        is_normal(f32_of(n as nat), 24),
        r.0 < 0x100_0000,
        -24 < r.1 <= 9,
        n > 0 ==> r.0 > 0,
{
    proof {
        lemma_pow2_table();
        vstd::arithmetic::power2::lemma2_to64();
        lemma_bit_len_le(n as nat, 32);
        crate::binary_float::lemma_float_of_nat_normal(n as nat, 24);
    }
    float_of_u64(n, 24)
}

/// `a as f32 / b as f32` for nonzero `b`.
fn f32_quotient_exec(a: u64, b: u64) -> (r: (u64, i32))
    requires
        a < 0x1_0000_0000,
        0 < b < 0x1_0000_0000,
    ensures
        (r.0 as nat, r.1 as int) == f32_quotient(a as nat, b as nat),
        r.0 < 0x100_0000,
        -64 <= r.1 <= 20,
{
    proof {
        lemma_pow2_table();
    }
    let fa = f32_of_exec(a);
    let fb = f32_of_exec(b);
    float_div_exec(fa, fb, 24)
}

/// Appends a number of hundredths with two decimals.
pub fn push_two_decimals_of(out: &mut String, hundredths: u128)
    ensures
        final(out)@ == old(out)@ + two_decimals(hundredths as nat),
{
    let ghost start = out@;
    push_decimal(out, hundredths / 100);
    push_char(out, '.');
    push_char(out, digit_char_of((hundredths % 100) / 10));
    push_char(out, digit_char_of(hundredths % 10));
    proof {
        reveal_strlit(".");
        assert(out@ =~= start + two_decimals(hundredths as nat));
    }
}

fn digit_char_of(d: u128) -> (c: char)
    requires
        d < 10,
    ensures
        c == digit_char(d as nat),
{
    ((d as u8) + 48) as char
}

/// Appends `width as f32 / height as f32` with two decimals.
pub fn push_ratio_two_decimals(out: &mut String, width: u32, height: u32)
    requires
        height > 0,
    ensures
        final(out)@ == old(out)@ + two_decimals(float_hundredths(f32_quotient(width as nat, height as nat))),
{
    let q = f32_quotient_exec(width as u64, height as u64);
    let n = float_hundredths_exec(q);
    push_two_decimals_of(out, n);
}

/// The aspect-ratio line shown under the size inputs.
pub fn aspect_ratio_display(width: u32, height: u32) -> (out: String)
    ensures
        out@ == ratio_label(width as nat, height as nat) + " ratio"@,
{
    let mut out = String::new();
    if width == 0 || height == 0 {
        push_str(&mut out, "0.00:1");
        push_str(&mut out, " ratio");
        return out;
    }
    let q = f32_quotient_exec(width as u64, height as u64);
    let t = f32_quotient_exec(1, 100);
    if within_tolerance_exec(q, f32_of_exec(1), t) {
        push_str(&mut out, "1:1 (Square)");
    } else if within_tolerance_exec(q, f32_quotient_exec(4, 3), t) {
        push_str(&mut out, "4:3 (Standard)");
    } else if within_tolerance_exec(q, f32_quotient_exec(16, 9), t) {
        push_str(&mut out, "16:9 (Widescreen)");
    } else if within_tolerance_exec(q, f32_quotient_exec(3, 4), t) {
        push_str(&mut out, "3:4 (Portrait)");
    } else {
        let n = float_hundredths_exec(q);
        push_two_decimals_of(&mut out, n);
        push_str(&mut out, ":1");
    }
    push_str(&mut out, " ratio");
    out
}

// ---------------------------------------------------------------- preview line

/// Name for what std `str::to_uppercase` returns: the Unicode upper-case
/// mapping of the characters.
pub uninterp spec fn uppercase(s: Seq<char>) -> Seq<char>;

/// std `str::to_uppercase`.  Its result is named by `uppercase`; nothing more
/// about the Unicode case mapping is claimed.
#[verifier::external_body]
fn to_uppercase(s: &str) -> (r: String)
    ensures
        r@ == uppercase(s@),
{
    s.to_uppercase()
}

/// `"<w>×<h>px, face at <pct>% height, <label> format"`.
pub open spec fn preview_line(width: nat, height: nat, face_height_pct: nat, label: Seq<char>) -> Seq<
    char,
> {
    decimal(width) + "×"@ + decimal(height) + "px, face at "@ + decimal(face_height_pct)
        + "% height, "@ + label + " format"@
}

/// The preview line for a format label that is already upper-case.
pub fn preview_text_with_label(width: u32, height: u32, face_height_pct: u8, label: &str) -> (out:
    String)
    ensures
        out@ == preview_line(width as nat, height as nat, face_height_pct as nat, label@),
{
    let mut out = String::new();
    push_decimal(&mut out, width as u128);
    push_str(&mut out, "×");
    push_decimal(&mut out, height as u128);
    push_str(&mut out, "px, face at ");
    push_decimal(&mut out, face_height_pct as u128);
    push_str(&mut out, "% height, ");
    push_str(&mut out, label);
    push_str(&mut out, " format");
    out
}

/// The one-line summary of the output settings.
pub fn preview_text(width: u32, height: u32, face_height_pct: u8, output_format: &str) -> (out:
    String)
    ensures
        out@ == preview_line(
            width as nat,
            height as nat,
            face_height_pct as nat,
            uppercase(output_format@),
        ),
{
    let label = to_uppercase(output_format);
    preview_text_with_label(width, height, face_height_pct, label.as_str())
}

} // verus!
