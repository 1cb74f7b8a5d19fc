//! Runtime rules of the processing pipeline: the memory indicator, which
//! images may release their buffers, retry timing and parsing, the reduced
//! resolution used for detection retries, image validation, and the modelled
//! outcome of a detection run with retries.
use crate::base_ui::f32_of;
use crate::binary_float::{
    bit_len, float_floor, float_floor_capped, float_of_u64, lemma_bit_len_bounds, lemma_bit_len_le,
    lemma_pow2_table,
};
use vstd::arithmetic::power2::{lemma_pow2_pos, lemma_pow2_unfold, pow2};
use crate::text::{
    chars_of, decimal, ends_with, has_prefix, has_suffix, push_decimal, push_str, starts_with,
    trim, trim_bounds,
};
use vstd::prelude::*;

verus! {

#[derive(Clone, Copy, Debug, PartialEq, Eq, Structural)]
pub enum MemoryIndicatorLevel {
    Hidden,
    Show,
    Warning,
    Critical,
}

#[derive(Clone, Debug, PartialEq, Eq)]
pub struct MemoryIndicator {
    pub images: usize,
    pub processed: usize,
    pub errors: usize,
    pub score: usize,
    pub level: MemoryIndicatorLevel,
    pub text: String,
}

#[derive(Clone, Copy, Debug, PartialEq, Eq, Structural)]
pub enum MemoryManagementMode {
    Aggressive,
    Auto,
    Manual,
}

#[derive(Clone, Debug, PartialEq, Eq)]
pub struct MemoryCleanupEntry {
    pub id: String,
    pub processed: bool,
    pub processed_at_ms: Option<u64>,
    pub memory_cleaned_up: bool,
}

#[derive(Clone, Copy, Debug, PartialEq, Eq, Structural)]
pub struct Dimensions {
    pub width: u32,
    pub height: u32,
}

#[derive(Clone, Copy, Debug, PartialEq, Eq, Structural)]
pub struct ImageValidationConfig {
    pub max_file_size_bytes: u64,
    pub min_width: u32,
    pub min_height: u32,
    pub max_width: u32,
    pub max_height: u32,
}

impl Default for ImageValidationConfig {
    fn default() -> (r: Self)
        ensures
            r == (ImageValidationConfig {
                max_file_size_bytes: 52428800u64,
                min_width: 50,
                min_height: 50,
                max_width: 8192,
                max_height: 8192,
            }),
    {
        Self {
            max_file_size_bytes: 50 * 1024 * 1024,
            min_width: 50,
            min_height: 50,
            max_width: 8192,
            max_height: 8192,
        }
    }
}

#[derive(Clone, Copy, Debug, PartialEq, Eq)]
pub struct ImageMeta<'a> {
    pub file_name: &'a str,
    pub mime_type: &'a str,
    pub file_size_bytes: u64,
    pub dimensions: Dimensions,
}

#[derive(Clone, Copy, Debug, PartialEq, Eq, Structural)]
pub struct DetectionRetryPolicy {
    pub max_retries: u32,
    pub continue_on_error: bool,
    pub reduced_resolution: bool,
}

#[derive(Clone, Debug, PartialEq, Eq, Structural)]
pub struct DetectionAttempt {
    pub attempt: u32,
    pub delay_ms: u64,
    pub dimensions: Dimensions,
    pub success: bool,
}

#[derive(Clone, Debug, PartialEq, Eq)]
pub struct DetectionOutcome {
    pub image_id: String,
    pub attempts: Vec<DetectionAttempt>,
    pub success: bool,
    pub faces_detected: u32,
    pub final_dimensions: Dimensions,
    pub error_message: Option<String>,
}

// ---------------------------------------------------------------- memory indicator

pub open spec fn saturate_usize(n: nat) -> nat {
    if n > usize::MAX {
        usize::MAX as nat
    } else {
        n
    }
}

/// The load score: ten per image and five per processed image, each term
/// saturating.
pub open spec fn memory_score(images: nat, processed: nat) -> nat {
    saturate_usize(images * 10) + saturate_usize(processed * 5)
}

pub open spec fn memory_level(score: nat, images: nat) -> MemoryIndicatorLevel {
    if score > 200 {
        MemoryIndicatorLevel::Critical
    } else if score > 100 {
        MemoryIndicatorLevel::Warning
    } else if images > 0 {
        MemoryIndicatorLevel::Show
    } else {
        MemoryIndicatorLevel::Hidden
    }
}

pub open spec fn memory_text(images: nat, processed: nat) -> Seq<char> {
    "Memory: "@ + decimal(images) + " images, "@ + decimal(processed) + " processed"@
}

/// `a * k`, or `usize::MAX` when that overflows (std `usize::saturating_mul`).
fn saturating_mul_usize(a: usize, k: usize) -> (r: usize)
    ensures
        r as nat == saturate_usize(a as nat * k as nat),
{
    match a.checked_mul(k) {
        Some(p) => p,
        None => usize::MAX,
    }
}

pub fn build_memory_indicator(images: usize, processed: usize, errors: usize) -> (m:
    MemoryIndicator)
    requires
        memory_score(images as nat, processed as nat) <= usize::MAX,
    ensures
        m.images == images,
        m.processed == processed,
        m.errors == errors,
        m.score == memory_score(images as nat, processed as nat),
        m.level == memory_level(m.score as nat, images as nat),
        m.text@ == memory_text(images as nat, processed as nat),
{
    let score = saturating_mul_usize(images, 10) + saturating_mul_usize(processed, 5);
    let level = if score > 200 {
        MemoryIndicatorLevel::Critical
    } else if score > 100 {
        MemoryIndicatorLevel::Warning
    } else if images > 0 {
        MemoryIndicatorLevel::Show
    } else {
        MemoryIndicatorLevel::Hidden
    };
    let mut text = String::new();
    push_str(&mut text, "Memory: ");
    push_decimal(&mut text, images as u128);
    push_str(&mut text, " images, ");
    push_decimal(&mut text, processed as u128);
    push_str(&mut text, " processed");
    MemoryIndicator { images, processed, errors, score, level, text }
}

/// More images or more processed images never lower the indicator level.
pub proof fn lemma_memory_level_monotone(i1: nat, p1: nat, i2: nat, p2: nat)
    requires
        i1 <= i2,
        p1 <= p2,
    ensures
        memory_score(i1, p1) <= memory_score(i2, p2),
        level_rank(memory_level(memory_score(i1, p1), i1)) <= level_rank(
            memory_level(memory_score(i2, p2), i2),
        ),
{
    assert(i1 * 10 <= i2 * 10);
    assert(p1 * 5 <= p2 * 5);
}

pub open spec fn level_rank(level: MemoryIndicatorLevel) -> nat {
    match level {
        MemoryIndicatorLevel::Hidden => 0,
        MemoryIndicatorLevel::Show => 1,
        MemoryIndicatorLevel::Warning => 2,
        MemoryIndicatorLevel::Critical => 3,
    }
}

// ---------------------------------------------------------------- cleanup

/// Five minutes, in milliseconds.
pub open spec fn cleanup_age_ms() -> nat {
    300000
}

/// An entry whose buffers may be released under `mode` at time `now_ms`:
/// processed, not yet cleaned, and (in automatic mode) processed more than five
/// minutes ago.
pub open spec fn is_cleanup_candidate(
    mode: MemoryManagementMode,
    entry: MemoryCleanupEntry,
    now_ms: nat,
) -> bool {
    entry.processed && !entry.memory_cleaned_up && match mode {
        MemoryManagementMode::Manual => false,
        MemoryManagementMode::Aggressive => true,
        MemoryManagementMode::Auto => match entry.processed_at_ms {
            Some(at) => at < (if now_ms >= cleanup_age_ms() {
                now_ms - cleanup_age_ms()
            } else {
                0
            }),
            None => false,
        },
    }
}

/// The ids of the candidates, in entry order.
pub open spec fn cleanup_candidates(
    mode: MemoryManagementMode,
    entries: Seq<MemoryCleanupEntry>,
    now_ms: nat,
) -> Seq<Seq<char>>
    decreases entries.len(),
{
    if entries.len() == 0 {
        Seq::empty()
    } else {
        let rest = cleanup_candidates(mode, entries.drop_last(), now_ms);
        if is_cleanup_candidate(mode, entries.last(), now_ms) {
            rest.push(entries.last().id@)
        } else {
            rest
        }
    }
}

/// The views of a sequence of strings.
pub open spec fn string_views(v: Seq<String>) -> Seq<Seq<char>> {
    v.map_values(|s: String| s@)
}

pub fn cleanup_candidate_ids(
    mode: MemoryManagementMode,
    entries: &[MemoryCleanupEntry],
    now_ms: u64,
) -> (ids: Vec<String>)
    ensures
        string_views(ids@) == cleanup_candidates(mode, entries@, now_ms as nat),
{
    let five_minutes_ms: u64 = 5 * 60 * 1000;
    let cutoff = now_ms.saturating_sub(five_minutes_ms);
    let mut ids: Vec<String> = Vec::new();
    let mut i: usize = 0;
    while i < entries.len()
        invariant
            i <= entries@.len(),
            cutoff == (if now_ms >= 300000 {
                now_ms - 300000
            } else {
                0
            }),
            string_views(ids@) == cleanup_candidates(mode, entries@.take(i as int), now_ms as nat),
        decreases entries@.len() - i,
    {
        let entry = &entries[i];
        proof {
            assert(entries@.take(i + 1).drop_last() == entries@.take(i as int));
            assert(entries@.take(i + 1).last() == entries@[i as int]);
        }
        let candidate = entry.processed && !entry.memory_cleaned_up && match mode {
            MemoryManagementMode::Manual => false,
            MemoryManagementMode::Aggressive => true,
            MemoryManagementMode::Auto => match entry.processed_at_ms {
                Some(at) => at < cutoff,
                None => false,
            },
        };
        if candidate {
            let id = entry.id.clone();
            let ghost prev = ids@;
            ids.push(id);
            proof {
                assert(string_views(ids@) =~= string_views(prev).push(entry.id@));
            }
        }
        i = i + 1;
    }
    proof {
        assert(entries@.take(entries@.len() as int) == entries@);
    }
    ids
}

/// Manual mode never releases anything.
pub proof fn lemma_manual_cleanup_is_empty(entries: Seq<MemoryCleanupEntry>, now_ms: nat)
    ensures
        cleanup_candidates(MemoryManagementMode::Manual, entries, now_ms).len() == 0,
    decreases entries.len(),
{
    if entries.len() > 0 {
        lemma_manual_cleanup_is_empty(entries.drop_last(), now_ms);
    }
}

/// Every id that automatic mode releases, aggressive mode releases too.
pub proof fn lemma_auto_cleanup_within_aggressive(
    entries: Seq<MemoryCleanupEntry>,
    now_ms: nat,
    id: Seq<char>,
)
    requires
        cleanup_candidates(MemoryManagementMode::Auto, entries, now_ms).contains(id),
    ensures
        cleanup_candidates(MemoryManagementMode::Aggressive, entries, now_ms).contains(id),
    decreases entries.len(),
{
    let auto_rest = cleanup_candidates(MemoryManagementMode::Auto, entries.drop_last(), now_ms);
    let aggr_rest = cleanup_candidates(
        MemoryManagementMode::Aggressive,
        entries.drop_last(),
        now_ms,
    );
    let aggr = cleanup_candidates(MemoryManagementMode::Aggressive, entries, now_ms);
    if auto_rest.contains(id) {
        lemma_auto_cleanup_within_aggressive(entries.drop_last(), now_ms, id);
        let k = choose|k: int| 0 <= k < aggr_rest.len() && aggr_rest[k] == id;
        if is_cleanup_candidate(MemoryManagementMode::Aggressive, entries.last(), now_ms) {
            assert(aggr[k] == id);
        }
    } else {
        assert(aggr[aggr.len() - 1] == id);
    }
}

// ---------------------------------------------------------------- retries

pub fn retry_delay_ms(attempt: u32) -> (d: u64)
    ensures
        d == attempt * 1000,
{
    (attempt as u64) * 1000
}

pub open spec fn is_ascii_digit(c: char) -> bool {
    '0' <= c && c <= '9'
}

/// The value of a string of decimal digits.
pub open spec fn digits_value(s: Seq<char>) -> nat
    decreases s.len(),
{
    if s.len() == 0 {
        0
    } else {
        digits_value(s.drop_last()) * 10 + ((s.last() as int - 48) as nat)
    }
}

/// std `u32::from_str`: an optional `+`, then at least one ASCII digit, with
/// a value that fits in `u32`.
/// `s` without one leading `+`.
pub open spec fn without_plus(s: Seq<char>) -> Seq<char> {
    if s.len() > 0 && s[0] == '+' {
        s.drop_first()
    } else {
        s
    }
}

pub open spec fn parsed_u32(s: Seq<char>) -> Option<nat> {
    let digits = without_plus(s);
    if digits.len() > 0 && (forall|k: int| 0 <= k < digits.len() ==> is_ascii_digit(#[trigger] digits[k]))
        && digits_value(digits) <= u32::MAX {
        Some(digits_value(digits))
    } else {
        None
    }
}

/// The retry count a settings field selects: its trimmed text as a `u32`, or 0.
pub open spec fn max_retries_of(raw: Option<Seq<char>>) -> nat {
    match raw {
        Some(s) => match parsed_u32(trim(s)) {
            Some(n) => n,
            None => 0,
        },
        None => 0,
    }
}

proof fn lemma_digits_value_prefix(s: Seq<char>, j: int)
    requires
        0 <= j <= s.len(),
        forall|k: int| 0 <= k < s.len() ==> is_ascii_digit(#[trigger] s[k]),
    ensures
        digits_value(s.take(j)) <= digits_value(s),
    decreases s.len() - j,
{
    if j < s.len() {
        lemma_digits_value_prefix(s, j + 1);
        let t = s.take(j + 1);
        assert(t.drop_last() == s.take(j));
        assert(t.last() == s[j]);
    } else {
        assert(s.take(j) == s);
    }
}

/// Parses `v[from..to]` as std `u32::from_str` does.
fn parse_u32_range(v: &Vec<char>, from: usize, to: usize) -> (r: Option<u32>)
    requires
        from <= to <= v.len(),
    ensures
        match r {
            Some(n) => parsed_u32(v@.subrange(from as int, to as int)) == Some(n as nat),
            None => parsed_u32(v@.subrange(from as int, to as int)) is None,
        },
{
    let ghost s = v@.subrange(from as int, to as int);
    let start = if from < to && v[from] == '+' {
        from + 1
    } else {
        from
    };
    let ghost digits = v@.subrange(start as int, to as int);
    proof {
        if from < to {
            assert(s[0] == v@[from as int]);
        }
        if from < to && v@[from as int] == '+' {
            assert(s.drop_first() == digits);
        } else {
            assert(s == digits);
        }
        assert(without_plus(s) == digits);
    }
    if start == to {
        return None;
    }
    let mut k = start;
    while k < to
        invariant
            start <= k <= to <= v.len(),
            digits == v@.subrange(start as int, to as int),
            without_plus(s) == digits,
            s == v@.subrange(from as int, to as int),
            forall|t: int| start <= t < k ==> is_ascii_digit(#[trigger] v@[t]),
        decreases to - k,
    {
        let c = v[k];
        if !('0' <= c && c <= '9') {
            proof {
                assert(digits[k - start] == v@[k as int]);
                assert(!is_ascii_digit(digits[k - start]));
            }
            return None;
        }
        k = k + 1;
    }
    assert forall|t: int| 0 <= t < digits.len() implies is_ascii_digit(#[trigger] digits[t]) by {
        assert(digits[t] == v@[t + start]);
    }
    let mut value: u64 = 0;
    let mut k = start;
    proof {
        assert(digits.take(0).len() == 0);
    }
    while k < to
        invariant
            start <= k <= to <= v.len(),
            digits == v@.subrange(start as int, to as int),
            without_plus(s) == digits,
            s == v@.subrange(from as int, to as int),
            forall|t: int| 0 <= t < digits.len() ==> is_ascii_digit(#[trigger] digits[t]),
            value as nat == digits_value(digits.take(k - start)),
            value <= u32::MAX,
        decreases to - k,
    {
        let c = v[k];
        proof {
            assert(digits[k - start] == v@[k as int]);
            assert(is_ascii_digit(digits[k - start]));
            assert(digits.take(k - start + 1).drop_last() == digits.take(k - start));
            assert(digits.take(k - start + 1).last() == c);
        }
        let d = ((c as u32) - 48) as u64;
        value = value * 10 + d;
        if value > 4294967295 {
            proof {
                lemma_digits_value_prefix(digits, k - start + 1);
            }
            return None;
        }
        k = k + 1;
    }
    proof {
        assert(digits.take(to - start) == digits);
    }
    Some(value as u32)
}

/// The retry count typed in a settings field; 0 when it is missing or not a
/// `u32`.
pub fn parse_max_retries(raw_value: Option<&str>) -> (n: u32)
    ensures
        n as nat == max_retries_of(
            match raw_value {
                Some(s) => Some(s@),
                None => None,
            },
        ),
{
    match raw_value {
        Some(s) => {
            let v = chars_of(s);
            let (from, to) = trim_bounds(&v, 0, v.len());
            proof {
                assert(v@.subrange(0, v.len() as int) == v@);
            }
            match parse_u32_range(&v, from, to) {
                Some(n) => n,
                None => 0,
            }
        },
        None => 0,
    }
}

// ---------------------------------------------------------------- reduced resolution

/// `(n as f32 * 0.5).floor().max(1.0) as u32`.
pub open spec fn halved_dimension(n: nat) -> nat {
    let f = f32_of(n);
    let half = if f.0 == 0 {
        (0nat, 0int)
    } else {
        (f.0, f.1 - 1)
    };
    let v = float_floor(half);
    let at_least_one = if v < 1 {
        1
    } else {
        v
    };
    if at_least_one > u32::MAX {
        u32::MAX as nat
    } else {
        at_least_one
    }
}

/// Halving a side that an `f32` holds exactly (below `2^24` pixels) is the
/// integer half, and never less than one pixel.
pub proof fn lemma_halved_dimension_is_integer_half(n: nat)
    requires
        n < pow2(24),
    ensures
        halved_dimension(n) == (if n / 2 >= 1 {
            n / 2
        } else {
            1
        }),
{
    lemma_pow2_table();
    if n > 0 {
        lemma_bit_len_le(n, 24);
        lemma_bit_len_bounds(n);
        let k = (24 - bit_len(n)) as nat;
        let m = n * pow2(k);
        lemma_pow2_pos(k);
        assert(m > 0) by (nonlinear_arith)
            requires
                m == n * pow2(k),
                n > 0,
                pow2(k) > 0,
        ;
        assert(f32_of(n) == (m, -(k as int)));
        lemma_pow2_unfold(k + 1);
        assert(m / pow2(k + 1) == n / 2) by {
            vstd::arithmetic::div_mod::lemma_div_multiples_vanish(n as int, pow2(k) as int);
            vstd::arithmetic::div_mod::lemma_div_denominator(m as int, pow2(k) as int, 2);
            assert(pow2(k) * 2 == pow2(k + 1));
            assert(m == pow2(k) * n) by (nonlinear_arith)
                requires
                    m == n * pow2(k),
            ;
        }
        assert(float_floor((m, -(k as int) - 1)) == m / pow2(k + 1));
    }
}

pub open spec fn reduced_dimensions(source: Dimensions, enabled: bool) -> Dimensions {
    if enabled {
        Dimensions {
            width: halved_dimension(source.width as nat) as u32,
            height: halved_dimension(source.height as nat) as u32,
        }
    } else {
        source
    }
}

fn halved_dimension_exec(n: u32) -> (r: u32)
    ensures
        r as nat == halved_dimension(n as nat),
{
    proof {
        lemma_pow2_table();
    }
    let f = float_of_u64(n as u64, 24);
    let half = if f.0 == 0 {
        (0u64, 0i32)
    } else {
        (f.0, f.1 - 1)
    };
    let v = float_floor_capped(half, u32::MAX as u64);
    if v < 1 {
        1
    } else {
        v as u32
    }
}

/// Halves both sides (at least one pixel each) when `enabled`.
pub fn reduced_resolution_dimensions(source: Dimensions, enabled: bool) -> (r: Dimensions)
    ensures
        r == reduced_dimensions(source, enabled),
{
    if !enabled {
        return source;
    }
    Dimensions {
        width: halved_dimension_exec(source.width),
        height: halved_dimension_exec(source.height),
    }
}

// ---------------------------------------------------------------- validation

pub open spec fn image_rejection(
    mime_type: Seq<char>,
    file_size_bytes: nat,
    dimensions: Dimensions,
    config: ImageValidationConfig,
) -> Option<Seq<char>> {
    if !has_prefix(mime_type, "image/"@) {
        Some("Invalid file type. Please select an image file."@)
    } else if file_size_bytes > config.max_file_size_bytes {
        Some("File too large. Maximum size is 50MB."@)
    } else if dimensions.width < config.min_width || dimensions.height < config.min_height {
        Some("Image too small. Minimum size is 50x50 pixels."@)
    } else if dimensions.width > config.max_width || dimensions.height > config.max_height {
        Some("Image too large. Maximum size is 8192x8192 pixels."@)
    } else {
        None
    }
}

/// Checks type, size and dimensions; the error says which limit failed first.
pub fn validate_image_meta(meta: ImageMeta<'_>, config: ImageValidationConfig) -> (r: Result<
    (),
    String,
>)
    ensures
        match r {
            Ok(()) => image_rejection(
                meta.mime_type@,
                meta.file_size_bytes as nat,
                meta.dimensions,
                config,
            ) is None,
            Err(message) => image_rejection(
                meta.mime_type@,
                meta.file_size_bytes as nat,
                meta.dimensions,
                config,
            ) == Some(message@),
        },
{
    let mime = chars_of(meta.mime_type);
    let prefix = chars_of("image/");
    if !starts_with(&mime, &prefix) {
        return Err(String::from_str("Invalid file type. Please select an image file."));
    }
    if meta.file_size_bytes > config.max_file_size_bytes {
        return Err(String::from_str("File too large. Maximum size is 50MB."));
    }
    if meta.dimensions.width < config.min_width || meta.dimensions.height < config.min_height {
        return Err(String::from_str("Image too small. Minimum size is 50x50 pixels."));
    }
    if meta.dimensions.width > config.max_width || meta.dimensions.height > config.max_height {
        return Err(String::from_str("Image too large. Maximum size is 8192x8192 pixels."));
    }
    Ok(())
}

// ---------------------------------------------------------------- detection model

/// The sum of the bytes.
pub open spec fn byte_sum(bytes: Seq<u8>) -> nat
    decreases bytes.len(),
{
    if bytes.len() == 0 {
        0
    } else {
        byte_sum(bytes.drop_last()) + (bytes.last() as nat)
    }
}

/// Ids whose UTF-8 bytes sum (modulo 2^32) to a multiple of 5 fail their
/// first attempt.
pub open spec fn is_transient_failure(id: Seq<char>) -> bool {
    (byte_sum(vstd::utf8::encode_utf8(id)) % 0x1_0000_0000) % 5 == 0
}

/// Ids ending in `.corrupt` fail every attempt.
pub open spec fn is_hard_failure(id: Seq<char>) -> bool {
    has_suffix(id, ".corrupt"@)
}

pub open spec fn attempt_succeeds(transient: bool, hard: bool, attempt: nat) -> bool {
    !hard && (!transient || attempt > 0)
}

pub open spec fn detection_succeeds(transient: bool, hard: bool, max_retries: nat) -> bool {
    !hard && (!transient || max_retries >= 1)
}

/// Attempts run: up to the first success, at most `max_retries + 1`.
pub open spec fn attempts_made(transient: bool, hard: bool, max_retries: nat) -> nat {
    if hard {
        max_retries + 1
    } else if transient && max_retries >= 1 {
        2
    } else {
        1
    }
}

pub open spec fn failure_message(max_retries: nat) -> Seq<char> {
    "Face detection failed after "@ + decimal(max_retries + 1) + " attempts"@
}

/// The outcome of detecting `image_id` with `policy`: exactly what each
/// attempt, the final state and the message are.
pub open spec fn detection_outcome_holds(
    image_id: Seq<char>,
    source: Dimensions,
    policy: DetectionRetryPolicy,
    out: DetectionOutcome,
) -> bool {
    let transient = is_transient_failure(image_id);
    let hard = is_hard_failure(image_id);
    let dims = reduced_dimensions(source, policy.reduced_resolution);
    let max = policy.max_retries as nat;
    let success = detection_succeeds(transient, hard, max);
    &&& out.image_id@ == image_id
    &&& out.attempts@.len() == attempts_made(transient, hard, max)
    &&& forall|i: int|
        0 <= i < out.attempts@.len() ==> #[trigger] out.attempts@[i] == (DetectionAttempt {
            attempt: i as u32,
            delay_ms: (i * 1000) as u64,
            dimensions: dims,
            success: attempt_succeeds(transient, hard, i as nat),
        })
    &&& out.success == success
    &&& out.faces_detected == (if success {
        2u32
    } else {
        0u32
    })
    &&& out.final_dimensions == dims
    &&& match out.error_message {
        Some(m) => !success && m@ == failure_message(max),
        None => success,
    }
}

fn byte_sum_mod(s: &str) -> (r: u32)
    ensures
        r as nat == byte_sum(vstd::utf8::encode_utf8(s@)) % 0x1_0000_0000,
{
    let bytes = s.as_bytes();
    let ghost b = bytes@;
    assert(b == vstd::utf8::encode_utf8(s@));
    let mut acc: u64 = 0;
    let mut i: usize = 0;
    while i < bytes.len()
        invariant
            i <= b.len(),
            b == bytes@,
            acc < 0x1_0000_0000,
            acc as nat == byte_sum(b.take(i as int)) % 0x1_0000_0000,
        decreases b.len() - i,
    {
        proof {
            assert(b.take(i + 1).drop_last() == b.take(i as int));
            assert(b.take(i + 1).last() == b[i as int]);
            vstd::arithmetic::div_mod::lemma_add_mod_noop(
                byte_sum(b.take(i as int)) as int,
                b[i as int] as int,
                0x1_0000_0000,
            );
            vstd::arithmetic::div_mod::lemma_small_mod(b[i as int] as nat, 0x1_0000_0000);
            vstd::arithmetic::div_mod::lemma_mod_twice(
                byte_sum(b.take(i as int)) as int,
                0x1_0000_0000,
            );
        }
        acc = (acc + bytes[i] as u64) % 0x1_0000_0000;
        i = i + 1;
    }
    proof {
        assert(b.take(b.len() as int) == b);
    }
    acc as u32
}

/// Runs the modelled detection with retries for `image_id`.
pub fn model_detection_retry_outcome(
    image_id: &str,
    source_dimensions: Dimensions,
    policy: DetectionRetryPolicy,
) -> (out: DetectionOutcome)
    requires
        !detection_succeeds(
            is_transient_failure(image_id@),
            is_hard_failure(image_id@),
            policy.max_retries as nat,
        ) ==> policy.max_retries < u32::MAX,
    ensures
        detection_outcome_holds(image_id@, source_dimensions, policy, out),
{
    let processed_dimensions = reduced_resolution_dimensions(
        source_dimensions,
        policy.reduced_resolution,
    );
    let transient_failure = byte_sum_mod(image_id) % 5 == 0;
    let id_chars = chars_of(image_id);
    let suffix = chars_of(".corrupt");
    let hard_failure = ends_with(&id_chars, &suffix);
    let ghost dims = processed_dimensions;
    let mut attempts: Vec<DetectionAttempt> = Vec::new();
    let mut success = false;
    let max_attempt = policy.max_retries;
    let mut attempt: u64 = 0;
    while attempt <= max_attempt as u64
        invariant_except_break
            !success,
            attempts@.len() == attempt,
        invariant
            attempt <= max_attempt as u64 + 1,
            attempts@.len() <= max_attempt as nat + 1,
            dims == processed_dimensions,
            forall|i: int|
                0 <= i < attempts@.len() ==> #[trigger] attempts@[i] == (DetectionAttempt {
                    attempt: i as u32,
                    delay_ms: (i * 1000) as u64,
                    dimensions: dims,
                    success: attempt_succeeds(transient_failure, hard_failure, i as nat),
                }),
            forall|i: int| 0 <= i < attempts@.len() - 1 ==> !(#[trigger] attempts@[i]).success,
            success ==> attempts@.len() >= 1 && attempt_succeeds(
                transient_failure,
                hard_failure,
                (attempts@.len() - 1) as nat,
            ),
            !success ==> forall|i: int|
                0 <= i < attempts@.len() ==> !(#[trigger] attempts@[i]).success,
        ensures
            success ==> attempts@.len() >= 1 && attempt_succeeds(
                transient_failure,
                hard_failure,
                (attempts@.len() - 1) as nat,
            ),
            !success ==> attempts@.len() == max_attempt as nat + 1,
        decreases max_attempt as u64 + 1 - attempt,
    {
        let this_success = if hard_failure {
            false
        } else if transient_failure {
            attempt > 0
        } else {
            true
        };
        let record = DetectionAttempt {
            attempt: attempt as u32,
            delay_ms: retry_delay_ms(attempt as u32),
            dimensions: processed_dimensions,
            success: this_success,
        };
        proof {
            assert(record.attempt == (attempt as int) as u32);
            assert(record.delay_ms == ((attempt as int) * 1000) as u64);
            assert(record.dimensions == dims);
            assert(record.success == attempt_succeeds(transient_failure, hard_failure, attempt as nat));
            assert(record == (DetectionAttempt {
                attempt: (attempt as int) as u32,
                delay_ms: ((attempt as int) * 1000) as u64,
                dimensions: dims,
                success: attempt_succeeds(transient_failure, hard_failure, attempt as nat),
            }));
        }
        attempts.push(record);
        if this_success {
            success = true;
            break;
        }
        attempt = attempt + 1;
    }
    proof {
        let max = max_attempt as nat;
        if !success {
            if detection_succeeds(transient_failure, hard_failure, max) {
                let idx: int = if transient_failure {
                    1
                } else {
                    0
                };
                assert(!attempts@[idx].success);
            }
        } else {
            let last = attempts@.len() - 1;
            assert(attempts@[last].success);
            if transient_failure && last > 1 {
                assert(!attempts@[1].success);
            }
            if !transient_failure && last > 0 {
                assert(!attempts@[0].success);
            }
            if transient_failure && last == 0 {
                assert(!attempt_succeeds(transient_failure, hard_failure, 0));
            }
        }
    }
    let error_message = if !success {
        let mut m = String::new();
        push_str(&mut m, "Face detection failed after ");
        push_decimal(&mut m, (policy.max_retries + 1) as u128);
        push_str(&mut m, " attempts");
        Some(m)
    } else {
        None
    };
    DetectionOutcome {
        image_id: String::from_str(image_id),
        attempts,
        success,
        faces_detected: if success {
            2
        } else {
            0
        },
        final_dimensions: processed_dimensions,
        error_message,
    }
}

// ---------------------------------------------------------------- laws

/// The indicator is critical exactly above a score of 200, a warning above 100
/// up to 200, shown below that while there are images, and hidden otherwise;
/// the score is ten per image plus five per processed image.
pub proof fn lemma_memory_level_thresholds(images: nat, processed: nat, score: nat)
    ensures
        (memory_level(score, images) == MemoryIndicatorLevel::Critical) <==> score > 200,
        (memory_level(score, images) == MemoryIndicatorLevel::Warning) <==> (100 < score
            && score <= 200),
        (memory_level(score, images) == MemoryIndicatorLevel::Show) <==> (score <= 100 && images
            > 0),
        (memory_level(score, images) == MemoryIndicatorLevel::Hidden) <==> (score <= 100
            && images == 0),
        images * 10 <= usize::MAX && processed * 5 <= usize::MAX ==> memory_score(images, processed)
            == 10 * images + 5 * processed,
{
}

/// An entry's id is released exactly when some entry with that id is
/// processed, not yet cleaned up, and: never in manual mode, always in
/// aggressive mode, and in automatic mode only when it was processed more than
/// five minutes (300000 ms) before now.
pub proof fn lemma_cleanup_releases_exactly(
    mode: MemoryManagementMode,
    entries: Seq<MemoryCleanupEntry>,
    now_ms: nat,
    id: Seq<char>,
)
    ensures
        cleanup_candidates(mode, entries, now_ms).contains(id) <==> exists|i: int|
            0 <= i < entries.len() && (#[trigger] entries[i]).id@ == id && entries[i].processed
                && !entries[i].memory_cleaned_up && match mode {
                MemoryManagementMode::Manual => false,
                MemoryManagementMode::Aggressive => true,
                MemoryManagementMode::Auto => match entries[i].processed_at_ms {
                    Some(at) => at + 300000 < now_ms,
                    None => false,
                },
            },
    decreases entries.len(),
{
    if entries.len() > 0 {
        let rest = entries.drop_last();
        lemma_cleanup_releases_exactly(mode, rest, now_ms, id);
        let c = cleanup_candidates(mode, entries, now_ms);
        let r = cleanup_candidates(mode, rest, now_ms);
        let last = entries.last();
        if is_cleanup_candidate(mode, last, now_ms) {
            assert(c == r.push(last.id@));
            if c.contains(id) {
                let k = choose|k: int| 0 <= k < c.len() && c[k] == id;
                if k < r.len() {
                    assert(r[k] == id);
                } else {
                    assert(entries[entries.len() - 1] == last);
                }
            }
            if r.contains(id) {
                let k = choose|k: int| 0 <= k < r.len() && r[k] == id;
                assert(c[k] == id);
            }
            if last.id@ == id {
                assert(c[c.len() - 1] == id);
            }
        }
        assert forall|i: int| 0 <= i < rest.len() implies #[trigger] rest[i] == entries[i] by {}
        if exists|i: int|
            0 <= i < entries.len() && (#[trigger] entries[i]).id@ == id && entries[i].processed
                && !entries[i].memory_cleaned_up && match mode {
                MemoryManagementMode::Manual => false,
                MemoryManagementMode::Aggressive => true,
                MemoryManagementMode::Auto => match entries[i].processed_at_ms {
                    Some(at) => at + 300000 < now_ms,
                    None => false,
                },
            } {
            let i = choose|i: int|
                0 <= i < entries.len() && (#[trigger] entries[i]).id@ == id && entries[i].processed
                    && !entries[i].memory_cleaned_up && match mode {
                    MemoryManagementMode::Manual => false,
                    MemoryManagementMode::Aggressive => true,
                    MemoryManagementMode::Auto => match entries[i].processed_at_ms {
                        Some(at) => at + 300000 < now_ms,
                        None => false,
                    },
                };
            if i < rest.len() {
                assert(rest[i] == entries[i]);
            }
        }
    }
}

/// An image passes validation exactly when its type starts with `image/`, its
/// size is within the limit, and each side lies between the minimum and the
/// maximum; a side above its maximum is always rejected.
pub proof fn lemma_validation_accepts_exactly(
    mime_type: Seq<char>,
    file_size_bytes: nat,
    dimensions: Dimensions,
    config: ImageValidationConfig,
)
    ensures
        image_rejection(mime_type, file_size_bytes, dimensions, config) is None <==> {
            &&& has_prefix(mime_type, "image/"@)
            &&& file_size_bytes <= config.max_file_size_bytes
            &&& config.min_width <= dimensions.width <= config.max_width
            &&& config.min_height <= dimensions.height <= config.max_height
        },
        dimensions.width > config.max_width || dimensions.height > config.max_height
            ==> image_rejection(mime_type, file_size_bytes, dimensions, config) is Some,
{
}

/// What detection with retries gives: an id ending in `.corrupt` fails every
/// one of its `max_retries + 1` attempts; an id whose UTF-8 byte sum (mod
/// 2^32) is a multiple of 5 fails only its first attempt, so it succeeds on
/// exactly the second attempt when a retry is allowed; any other id succeeds on
/// its first attempt.  Success finds two faces and leaves no message; failure
/// finds none and says after how many attempts.
pub proof fn lemma_detection_outcome(
    image_id: Seq<char>,
    source: Dimensions,
    policy: DetectionRetryPolicy,
    out: DetectionOutcome,
)
    requires
        detection_outcome_holds(image_id, source, policy, out),
    ensures
        ({
            let transient = (byte_sum(vstd::utf8::encode_utf8(image_id)) % 0x1_0000_0000) % 5 == 0;
            let hard = has_suffix(image_id, ".corrupt"@);
            let n = policy.max_retries as nat;
            &&& hard ==> {
                &&& !out.success
                &&& out.attempts@.len() == n + 1
                &&& forall|i: int| 0 <= i < out.attempts@.len() ==> !(#[trigger] out.attempts@[i]).success
                &&& out.faces_detected == 0
                &&& out.error_message matches Some(m) && m@ == "Face detection failed after "@
                    + decimal(n + 1) + " attempts"@
            }
            &&& (!hard && transient && n >= 1) ==> {
                &&& out.success
                &&& out.attempts@.len() == 2
                &&& !out.attempts@[0].success
                &&& out.attempts@[1].success
                &&& out.faces_detected == 2
                &&& out.error_message is None
            }
            &&& (!hard && transient && n == 0) ==> {
                &&& !out.success
                &&& out.attempts@.len() == 1
                &&& !out.attempts@[0].success
                &&& out.faces_detected == 0
                &&& out.error_message matches Some(m) && m@ == "Face detection failed after 1 attempts"@
            }
            &&& (!hard && !transient) ==> {
                &&& out.success
                &&& out.attempts@.len() == 1
                &&& out.attempts@[0].success
                &&& out.faces_detected == 2
                &&& out.error_message is None
            }
            &&& forall|i: int| 0 <= i < out.attempts@.len() ==> {
                &&& (#[trigger] out.attempts@[i]).attempt == i
                &&& out.attempts@[i].delay_ms == 1000 * i
            }
        }),
{
    let n = policy.max_retries as nat;
    if has_suffix(image_id, ".corrupt"@) {
        assert forall|i: int| 0 <= i < out.attempts@.len() implies !(#[trigger] out.attempts@[i]).success by {}
    }
    if !has_suffix(image_id, ".corrupt"@) && (byte_sum(vstd::utf8::encode_utf8(image_id)) % 0x1_0000_0000) % 5 == 0 && n == 0 {
        reveal_strlit("1");
        assert(decimal(1) == seq!['1']);
        assert("Face detection failed after "@ + decimal(1) + " attempts"@ == "Face detection failed after 1 attempts"@) by {
            reveal_strlit("Face detection failed after ");
            reveal_strlit(" attempts");
            reveal_strlit("Face detection failed after 1 attempts");
        }
    }
    assert forall|i: int| 0 <= i < out.attempts@.len() implies {
        &&& (#[trigger] out.attempts@[i]).attempt == i
        &&& out.attempts@[i].delay_ms == 1000 * i
    } by {
        assert(out.attempts@.len() <= n + 1);
        assert(i * 1000 <= 0xffff_ffff * 1000);
    }
}

/// Which message a rejected image gets: a type other than `image/...` is an
/// invalid type; otherwise a file above the size limit is too large; otherwise
/// a side below its minimum is too small; otherwise a side above its maximum
/// is too large in pixels.
pub proof fn lemma_validation_messages(
    mime_type: Seq<char>,
    file_size_bytes: nat,
    dimensions: Dimensions,
    config: ImageValidationConfig,
)
    ensures
        ({
            let r = image_rejection(mime_type, file_size_bytes, dimensions, config);
            let typed = has_prefix(mime_type, "image/"@);
            let sized = file_size_bytes <= config.max_file_size_bytes;
            let big_enough = dimensions.width >= config.min_width && dimensions.height
                >= config.min_height;
            &&& !typed ==> r == Some("Invalid file type. Please select an image file."@)
            &&& typed && !sized ==> r == Some("File too large. Maximum size is 50MB."@)
            &&& typed && sized && !big_enough ==> r == Some(
                "Image too small. Minimum size is 50x50 pixels."@,
            )
            &&& typed && sized && big_enough && (dimensions.width > config.max_width
                || dimensions.height > config.max_height) ==> r == Some(
                "Image too large. Maximum size is 8192x8192 pixels."@,
            )
        }),
{
}

} // verus!
