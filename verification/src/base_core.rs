//! Settings and statistics shared by the processing modes: output file names,
//! processing timings and their summary, output size presets, and the small
//! texts and switches of the settings panel.
use crate::base_ui::{
    f32_quotient, preview_line, preview_text, push_two_decimals_of, two_decimals, SizePresetName,
};
use crate::binary_float::float_hundredths;
use crate::batch_core::{last_n, push_keeping_last, rounded_mean, rounded_mean_exec,
    rounded_percent, rounded_percent_exec, sum_times, sum_u64};
use crate::text::{chars_of, decimal, push_decimal, push_range, push_str, replace_all, replace_str};
use vstd::prelude::*;

verus! {

/// Where the crop is placed around a detected face.
#[derive(Clone, Copy, Debug, PartialEq, Eq, Structural)]
pub enum PositioningMode {
    Center,
    RuleOfThirds,
    Custom,
}

/// The output settings.  The two offsets are `f32` percentages, kept here by
/// their IEEE-754 bit patterns; only the crop geometry reads them.
#[derive(Clone, Debug, PartialEq, Eq)]
pub struct CoreSettings {
    pub naming_template: String,
    pub output_format: String,
    pub positioning_mode: PositioningMode,
    pub vertical_offset_pct_bits: u32,
    pub horizontal_offset_pct_bits: u32,
}

impl Default for CoreSettings {
    fn default() -> (s: Self)
        ensures
            s.naming_template@ == "face_{original}_{index}"@,
            s.output_format@ == "png"@,
            s.positioning_mode == PositioningMode::Center,
            s.vertical_offset_pct_bits == 0,
            s.horizontal_offset_pct_bits == 0,
    {
        CoreSettings {
            naming_template: String::from_str("face_{original}_{index}"),
            output_format: String::from_str("png"),
            positioning_mode: PositioningMode::Center,
            vertical_offset_pct_bits: 0,
            horizontal_offset_pct_bits: 0,
        }
    }
}

#[derive(Clone, Debug, PartialEq, Eq)]
pub struct ProcessingStatistics {
    pub total_faces_detected: u64,
    pub images_processed: u64,
    pub successful_processing: u64,
    pub processing_times_ms: Vec<u64>,
    pub processing_start_ms: Option<u64>,
}

impl Default for ProcessingStatistics {
    fn default() -> (s: Self)
        ensures
            s.total_faces_detected == 0,
            s.images_processed == 0,
            s.successful_processing == 0,
            s.processing_times_ms@.len() == 0,
            s.processing_start_ms is None,
    {
        ProcessingStatistics {
            total_faces_detected: 0,
            images_processed: 0,
            successful_processing: 0,
            processing_times_ms: Vec::new(),
            processing_start_ms: None,
        }
    }
}

#[derive(Clone, Copy, Debug, Default, PartialEq, Eq, Structural)]
pub struct StatsSummary {
    pub success_rate_pct: u32,
    pub avg_processing_time_ms: u64,
}

#[derive(Clone, Debug, PartialEq, Eq)]
pub struct BaseCore {
    pub settings: CoreSettings,
    pub stats: ProcessingStatistics,
}

impl Default for BaseCore {
    fn default() -> (c: Self)
        ensures
            c.settings.naming_template@ == "face_{original}_{index}"@,
            c.settings.output_format@ == "png"@,
            c.settings.positioning_mode == PositioningMode::Center,
            c.stats.images_processed == 0,
            c.stats.total_faces_detected == 0,
            c.stats.successful_processing == 0,
            c.stats.processing_times_ms@.len() == 0,
            c.stats.processing_start_ms is None,
    {
        BaseCore { settings: CoreSettings::default(), stats: ProcessingStatistics::default() }
    }
}

#[derive(Clone, Copy, Debug, PartialEq, Eq, Structural)]
pub enum SizePreset {
    LinkedIn,
    Passport,
    Instagram,
    IdCard,
    Avatar,
    Headshot,
}

#[derive(Clone, Copy, Debug, PartialEq, Eq, Structural)]
pub struct OutputDimensions {
    pub width: u32,
    pub height: u32,
}

#[derive(Clone, Copy, Debug, PartialEq, Eq, Structural)]
pub enum FormatVisibility {
    ShowJpegQuality,
    HideJpegQuality,
}

// ---------------------------------------------------------------- names

/// The index of the last `c` in `s`.
pub open spec fn last_index_of(s: Seq<char>, c: char) -> Option<int>
    decreases s.len(),
{
    if s.len() == 0 {
        None
    } else if s.last() == c {
        Some(s.len() - 1)
    } else {
        last_index_of(s.drop_last(), c)
    }
}

/// A file name without the text from its last `.` on.
pub open spec fn file_stem(name: Seq<char>) -> Seq<char> {
    match last_index_of(name, '.') {
        Some(i) => name.take(i),
        None => name,
    }
}

/// The ASCII lower-case code of `c` (other characters unchanged).
pub open spec fn ascii_lower_code(c: char) -> int {
    if 'A' <= c && c <= 'Z' {
        c as int + 32
    } else {
        c as int
    }
}

/// Equality up to ASCII case (std `str::eq_ignore_ascii_case`).
pub open spec fn eq_ignore_ascii_case(a: Seq<char>, b: Seq<char>) -> bool {
    a.len() == b.len() && forall|i: int|
        0 <= i < a.len() ==> ascii_lower_code(#[trigger] a[i]) == ascii_lower_code(b[i])
}

/// The extension written for an output format: `jpg` for any casing of `jpeg`.
pub open spec fn output_extension(output_format: Seq<char>) -> Seq<char> {
    if eq_ignore_ascii_case(output_format, "jpeg"@) {
        "jpg"@
    } else {
        output_format
    }
}

/// The template with its variables replaced, in this order, then the extension.
pub open spec fn batch_filename(
    template: Seq<char>,
    output_format: Seq<char>,
    original_name: Seq<char>,
    face_index: nat,
    width: nat,
    height: nat,
    timestamp: Seq<char>,
) -> Seq<char> {
    let a = replace_all(template, "{original}"@, file_stem(original_name));
    let b = replace_all(a, "{index}"@, decimal(face_index));
    let c = replace_all(b, "{timestamp}"@, timestamp);
    let d = replace_all(c, "{width}"@, decimal(width));
    let e = replace_all(d, "{height}"@, decimal(height));
    e + "."@ + output_extension(output_format)
}

fn last_dot(v: &Vec<char>) -> (r: Option<usize>)
    ensures
        match r {
            Some(i) => last_index_of(v@, '.') == Some(i as int) && i < v.len(),
            None => last_index_of(v@, '.') is None,
        },
{
    let mut i = v.len();
    assert(v@.take(v.len() as int) == v@);
    while i > 0
        invariant
            i <= v.len(),
            last_index_of(v@, '.') == last_index_of(v@.take(i as int), '.'),
        decreases i,
    {
        proof {
            assert(v@.take(i as int).last() == v@[i - 1]);
            assert(v@.take(i as int).drop_last() == v@.take(i - 1));
        }
        if v[i - 1] == '.' {
            return Some(i - 1);
        }
        i = i - 1;
    }
    None
}

/// A file name without the text from its last `.` on.
pub fn stem_text(name: &str) -> (r: String)
    ensures
        r@ == file_stem(name@),
{
    proof {
        assert(name@.take(name@.len() as int) == name@);
    }
    let v = chars_of(name);
    let end = match last_dot(&v) {
        Some(i) => i,
        None => v.len(),
    };
    let mut out = String::new();
    push_range(&mut out, &v, 0, end);
    proof {
        assert(v@.subrange(0, end as int) == v@.take(end as int));
        assert(v@.take(v.len() as int) == v@);
    }
    out
}

fn lower_code(c: char) -> (r: u32)
    ensures
        r as int == ascii_lower_code(c),
{
    let u = c as u32;
    if 'A' <= c && c <= 'Z' {
        u + 32
    } else {
        u
    }
}

/// `a` and `b` are equal up to ASCII case.
pub fn equals_ignoring_ascii_case(a: &str, b: &str) -> (r: bool)
    ensures
        r == eq_ignore_ascii_case(a@, b@),
{
    let va = chars_of(a);
    let vb = chars_of(b);
    if va.len() != vb.len() {
        return false;
    }
    let mut i: usize = 0;
    while i < va.len()
        invariant
            i <= va.len(),
            va.len() == vb.len(),
            va@ == a@,
            vb@ == b@,
            forall|k: int| 0 <= k < i ==> ascii_lower_code(#[trigger] va@[k]) == ascii_lower_code(vb@[k]),
        decreases va.len() - i,
    {
        if lower_code(va[i]) != lower_code(vb[i]) {
            return false;
        }
        i = i + 1;
    }
    true
}

// ---------------------------------------------------------------- statistics

/// The kept timings after the end of one image's processing is recorded.
pub open spec fn times_after_end(s: ProcessingStatistics, now_ms: nat) -> Seq<u64> {
    match s.processing_start_ms {
        Some(start) => last_n(
            s.processing_times_ms@.push(
                (if now_ms >= start {
                    now_ms - start
                } else {
                    0
                }) as u64,
            ),
            50,
        ),
        None => s.processing_times_ms@,
    }
}

impl BaseCore {
    pub fn new(settings: CoreSettings) -> (c: Self)
        ensures
            c.settings == settings,
            c.stats.images_processed == 0,
            c.stats.total_faces_detected == 0,
            c.stats.successful_processing == 0,
            c.stats.processing_times_ms@.len() == 0,
            c.stats.processing_start_ms is None,
    {
        BaseCore { settings, stats: ProcessingStatistics::default() }
    }

    /// The output file name for face `face_index` of `original_name`.
    pub fn generate_batch_filename(
        &self,
        original_name: &str,
        face_index: usize,
        width: u32,
        height: u32,
        timestamp: &str,
    ) -> (name: String)
        ensures
            name@ == batch_filename(
                self.settings.naming_template@,
                self.settings.output_format@,
                original_name@,
                face_index as nat,
                width as nat,
                height as nat,
                timestamp@,
            ),
    {
        proof {
            reveal_strlit("{original}");
            reveal_strlit("{index}");
            reveal_strlit("{timestamp}");
            reveal_strlit("{width}");
            reveal_strlit("{height}");
        }
        let base_name = stem_text(original_name);
        let index_text = crate::text::decimal_string(face_index as u128);
        let width_text = crate::text::decimal_string(width as u128);
        let height_text = crate::text::decimal_string(height as u128);
        let a = replace_str(self.settings.naming_template.as_str(), "{original}", base_name.as_str());
        let b = replace_str(a.as_str(), "{index}", index_text.as_str());
        let c = replace_str(b.as_str(), "{timestamp}", timestamp);
        let d = replace_str(c.as_str(), "{width}", width_text.as_str());
        let mut out = replace_str(d.as_str(), "{height}", height_text.as_str());
        push_str(&mut out, ".");
        if equals_ignoring_ascii_case(self.settings.output_format.as_str(), "jpeg") {
            push_str(&mut out, "jpg");
        } else {
            push_str(&mut out, self.settings.output_format.as_str());
        }
        out
    }

    pub fn record_processing_start(&mut self, now_ms: u64)
        ensures
            final(self).stats.processing_start_ms == Some(now_ms),
            final(self).stats.processing_times_ms == old(self).stats.processing_times_ms,
            final(self).stats.images_processed == old(self).stats.images_processed,
            final(self).stats.successful_processing == old(self).stats.successful_processing,
            final(self).stats.total_faces_detected == old(self).stats.total_faces_detected,
            final(self).settings == old(self).settings,
    {
        self.stats.processing_start_ms = Some(now_ms);
    }

    /// Records the end of one image's processing: its time since the recorded
    /// start (the last fifty are kept), and the counters.
    pub fn record_processing_end(&mut self, now_ms: u64, success: bool, faces_detected: u64)
        requires
            old(self).stats.images_processed < u64::MAX,
            old(self).stats.total_faces_detected + faces_detected <= u64::MAX,
            success ==> old(self).stats.successful_processing < u64::MAX,
            old(self).stats.processing_times_ms@.len() < usize::MAX,
        ensures
            final(self).stats.processing_times_ms@ == times_after_end(old(self).stats, now_ms as nat),
            final(self).stats.images_processed == old(self).stats.images_processed + 1,
            final(self).stats.total_faces_detected == old(self).stats.total_faces_detected
                + faces_detected,
            final(self).stats.successful_processing == old(self).stats.successful_processing + (
            if success {
                1int
            } else {
                0int
            }),
            final(self).stats.processing_start_ms == old(self).stats.processing_start_ms,
            final(self).settings == old(self).settings,
    {
        if let Some(start) = self.stats.processing_start_ms {
            let elapsed = now_ms.saturating_sub(start);
            let mut times: Vec<u64> = Vec::new();
            std::mem::swap(&mut times, &mut self.stats.processing_times_ms);
            self.stats.processing_times_ms = push_keeping_last(times, elapsed, 50);
        }
        self.stats.images_processed = self.stats.images_processed + 1;
        self.stats.total_faces_detected = self.stats.total_faces_detected + faces_detected;
        if success {
            self.stats.successful_processing = self.stats.successful_processing + 1;
        }
    }

    /// Success rate in percent and mean kept timing, both rounded.
    pub fn summary(&self) -> (s: StatsSummary)
        requires
            sum_u64(self.stats.processing_times_ms@) <= u64::MAX,
        ensures
            s.success_rate_pct == rounded_percent(
                self.stats.successful_processing as nat,
                self.stats.images_processed as nat,
                u32::MAX as nat,
            ),
            s.avg_processing_time_ms == rounded_mean(
                sum_u64(self.stats.processing_times_ms@),
                self.stats.processing_times_ms@.len(),
                u64::MAX as nat,
            ),
    {
        let success_rate_pct = rounded_percent_exec(
            self.stats.successful_processing,
            self.stats.images_processed,
            u32::MAX as u64,
        ) as u32;
        let sum = sum_times(&self.stats.processing_times_ms);
        let avg_processing_time_ms = rounded_mean_exec(
            sum,
            self.stats.processing_times_ms.len() as u64,
            u64::MAX,
        );
        StatsSummary { success_rate_pct, avg_processing_time_ms }
    }

    /// The number of `true` flags.
    pub fn selected_count(selected_flags: &[bool]) -> (n: usize)
        ensures
            n == count_true(selected_flags@),
    {
        let mut n: usize = 0;
        let mut i: usize = 0;
        while i < selected_flags.len()
            invariant
                i <= selected_flags@.len(),
                n == count_true(selected_flags@.take(i as int)),
                n <= i,
            decreases selected_flags@.len() - i,
        {
            proof {
                assert(selected_flags@.take(i + 1).drop_last() == selected_flags@.take(i as int));
            }
            if selected_flags[i] {
                n = n + 1;
            }
            i = i + 1;
        }
        proof {
            assert(selected_flags@.take(i as int) == selected_flags@);
        }
        n
    }

    /// The output-settings summary line.
    pub fn preview_summary_text(
        width: u32,
        height: u32,
        face_height_pct: u8,
        output_format: &str,
    ) -> (out: String)
        ensures
            out@ == preview_line(
                width as nat,
                height as nat,
                face_height_pct as nat,
                crate::base_ui::uppercase(output_format@),
            ),
    {
        preview_text(width, height, face_height_pct, output_format)
    }

    /// `width / height` as an `f32` with two decimals (0 for zero height).
    pub fn aspect_ratio_text(width: u32, height: u32) -> (out: String)
        ensures
            out@ == two_decimals(
                if height == 0 {
                    0
                } else {
                    float_hundredths(f32_quotient(width as nat, height as nat))
                },
            ) + ":1 ratio"@,
    {
        let mut out = String::new();
        if height == 0 {
            push_two_decimals_of(&mut out, 0);
        } else {
            crate::base_ui::push_ratio_two_decimals(&mut out, width, height);
        }
        push_str(&mut out, ":1 ratio");
        out
    }

    /// Offsets can be adjusted only in custom positioning.
    pub fn show_advanced_positioning(positioning_mode: &PositioningMode) -> (b: bool)
        ensures
            b == (*positioning_mode == PositioningMode::Custom),
    {
        match positioning_mode {
            PositioningMode::Custom => true,
            _ => false,
        }
    }

    /// `"<value>%"`.
    pub fn offset_text(value_pct: i32) -> (out: String)
        ensures
            out@ == signed_decimal(value_pct as int) + "%"@,
    {
        let mut out = String::new();
        if value_pct < 0 {
            push_str(&mut out, "-");
            push_decimal(&mut out, (-(value_pct as i64)) as u128);
        } else {
            push_decimal(&mut out, value_pct as u128);
        }
        push_str(&mut out, "%");
        out
    }

    pub fn size_preset_dimensions(preset: SizePreset) -> (d: OutputDimensions)
        ensures
            d == preset_dimensions(preset),
    {
        match preset {
            SizePreset::LinkedIn => OutputDimensions { width: 400, height: 400 },
            SizePreset::Passport => OutputDimensions { width: 413, height: 531 },
            SizePreset::Instagram => OutputDimensions { width: 1080, height: 1080 },
            SizePreset::IdCard => OutputDimensions { width: 332, height: 498 },
            SizePreset::Avatar => OutputDimensions { width: 512, height: 512 },
            SizePreset::Headshot => OutputDimensions { width: 600, height: 800 },
        }
    }

    /// The JPEG quality control shows exactly for the `jpeg` format (any case).
    pub fn format_visibility(output_format: &str) -> (v: FormatVisibility)
        ensures
            v == (if eq_ignore_ascii_case(output_format@, "jpeg"@) {
                FormatVisibility::ShowJpegQuality
            } else {
                FormatVisibility::HideJpegQuality
            }),
    {
        if equals_ignoring_ascii_case(output_format, "jpeg") {
            FormatVisibility::ShowJpegQuality
        } else {
            FormatVisibility::HideJpegQuality
        }
    }
}

/// The number of `true` values.
pub open spec fn count_true(s: Seq<bool>) -> nat
    decreases s.len(),
{
    if s.len() == 0 {
        0
    } else {
        count_true(s.drop_last()) + (if s.last() {
            1nat
        } else {
            0nat
        })
    }
}

/// Decimal text of an integer, with `-` for negatives.
pub open spec fn signed_decimal(n: int) -> Seq<char> {
    if n < 0 {
        "-"@ + decimal((-n) as nat)
    } else {
        decimal(n as nat)
    }
}

pub open spec fn preset_dimensions(preset: SizePreset) -> OutputDimensions {
    match preset {
        SizePreset::LinkedIn => OutputDimensions { width: 400, height: 400 },
        SizePreset::Passport => OutputDimensions { width: 413, height: 531 },
        SizePreset::Instagram => OutputDimensions { width: 1080, height: 1080 },
        SizePreset::IdCard => OutputDimensions { width: 332, height: 498 },
        SizePreset::Avatar => OutputDimensions { width: 512, height: 512 },
        SizePreset::Headshot => OutputDimensions { width: 600, height: 800 },
    }
}

/// The name that the preset picker shows for a preset.
pub open spec fn preset_name(preset: SizePreset) -> SizePresetName {
    match preset {
        SizePreset::LinkedIn => SizePresetName::LinkedIn,
        SizePreset::Passport => SizePresetName::Passport,
        SizePreset::Instagram => SizePresetName::Instagram,
        SizePreset::IdCard => SizePresetName::IdCard,
        SizePreset::Avatar => SizePresetName::Avatar,
        SizePreset::Headshot => SizePresetName::Headshot,
    }
}

/// The dimensions of every preset are recognised as that preset again.
pub proof fn lemma_preset_dimensions_round_trip(preset: SizePreset)
    ensures
        crate::base_ui::matching_preset(
            preset_dimensions(preset).width as nat,
            preset_dimensions(preset).height as nat,
        ) == preset_name(preset),
{
}

/// The output file name always ends with `.` and the format's extension.
pub proof fn lemma_batch_filename_ends_with_extension(
    template: Seq<char>,
    output_format: Seq<char>,
    original_name: Seq<char>,
    face_index: nat,
    width: nat,
    height: nat,
    timestamp: Seq<char>,
)
    ensures
        crate::text::has_suffix(
            batch_filename(template, output_format, original_name, face_index, width, height, timestamp),
            "."@ + output_extension(output_format),
        ),
{
    let name = batch_filename(template, output_format, original_name, face_index, width, height, timestamp);
    let ext = "."@ + output_extension(output_format);
    let body = name.take(name.len() - ext.len());
    assert(name.skip(name.len() - ext.len()) =~= ext);
}

} // verus!
