use face_crop_forge::base_core::{
    equals_ignoring_ascii_case, stem_text, BaseCore, CoreSettings, FormatVisibility,
    OutputDimensions, PositioningMode, SizePreset,
};

#[test]
fn filename_template_variables_expand() {
    let settings = CoreSettings {
        naming_template: "face_{original}_{index}_{width}x{height}_{timestamp}".to_string(),
        output_format: "jpeg".to_string(),
        ..CoreSettings::default()
    };
    let core = BaseCore::new(settings);
    let filename = core.generate_batch_filename("person.png", 2, 256, 512, "2026-02-27T18-00-00");
    assert_eq!(filename, "face_person_2_256x512_2026-02-27T18-00-00.jpg");
}

#[test]
fn statistics_tracks_success_rate_and_average_time() {
    let mut core = BaseCore::default();
    core.record_processing_start(1_000);
    core.record_processing_end(1_100, true, 2);
    core.record_processing_start(2_000);
    core.record_processing_end(2_300, false, 1);

    let summary = core.summary();
    assert_eq!(summary.success_rate_pct, 50);
    assert_eq!(summary.avg_processing_time_ms, 200);
    assert_eq!(core.stats.total_faces_detected, 3);
    assert_eq!(core.stats.images_processed, 2);
}

#[test]
fn selected_count_matches_true_flags() {
    let selected = vec![true, false, true, true, false];
    assert_eq!(BaseCore::selected_count(&selected), 3);
}

#[test]
fn preview_and_ratio_text_match_ui_expectations() {
    assert_eq!(
        BaseCore::preview_summary_text(512, 512, 70, "png"),
        "512×512px, face at 70% height, PNG format"
    );
    assert_eq!(BaseCore::aspect_ratio_text(600, 800), "0.75:1 ratio");
}

#[test]
fn size_preset_and_format_visibility_match_ts_values() {
    assert_eq!(
        BaseCore::size_preset_dimensions(SizePreset::Passport),
        OutputDimensions {
            width: 413,
            height: 531
        }
    );
    assert_eq!(
        BaseCore::format_visibility("jpeg"),
        FormatVisibility::ShowJpegQuality
    );
    assert_eq!(
        BaseCore::format_visibility("png"),
        FormatVisibility::HideJpegQuality
    );
    assert!(BaseCore::show_advanced_positioning(&PositioningMode::Custom));
    assert!(!BaseCore::show_advanced_positioning(&PositioningMode::Center));
    assert_eq!(BaseCore::offset_text(-15), "-15%");
}

#[test]
fn batch_filename_keeps_default_template_and_png_extension() {
    let core = BaseCore::default();
    let name = core.generate_batch_filename("holiday.photo.JPG", 0, 10, 10, "t");
    assert_eq!(name, "face_holiday.photo_0.png");
}

#[test]
fn batch_filename_of_webp_format_uses_webp_extension() {
    let settings = CoreSettings {
        naming_template: "{original}".to_string(),
        output_format: "webp".to_string(),
        ..CoreSettings::default()
    };
    let core = BaseCore::new(settings);
    assert_eq!(
        core.generate_batch_filename("noext", 1, 1, 1, "x"),
        "noext.webp"
    );
}

#[test]
fn stem_drops_only_the_last_extension() {
    assert_eq!(stem_text("a.b.c"), "a.b");
    assert_eq!(stem_text("plain"), "plain");
    assert_eq!(stem_text(".hidden"), "");
}

#[test]
fn ascii_case_comparison_ignores_case_only() {
    assert!(equals_ignoring_ascii_case("JPEG", "jpeg"));
    assert!(equals_ignoring_ascii_case("JpEg", "jPeG"));
    assert!(!equals_ignoring_ascii_case("jpg", "jpeg"));
    assert_eq!(
        BaseCore::format_visibility("JPEG"),
        FormatVisibility::ShowJpegQuality
    );
}

#[test]
fn summary_of_fresh_core_is_zero() {
    let core = BaseCore::default();
    let summary = core.summary();
    assert_eq!(summary.success_rate_pct, 0);
    assert_eq!(summary.avg_processing_time_ms, 0);
}

#[test]
fn end_without_start_counts_image_without_time() {
    let mut core = BaseCore::default();
    core.record_processing_end(500, true, 4);
    assert_eq!(core.stats.images_processed, 1);
    assert_eq!(core.stats.successful_processing, 1);
    assert_eq!(core.stats.total_faces_detected, 4);
    assert_eq!(core.summary().success_rate_pct, 100);
}

#[test]
fn offset_and_ratio_texts_cover_zero_and_positive() {
    assert_eq!(BaseCore::offset_text(0), "0%");
    assert_eq!(BaseCore::offset_text(25), "25%");
    assert_eq!(BaseCore::aspect_ratio_text(800, 0), "0.00:1 ratio");
    assert_eq!(BaseCore::aspect_ratio_text(1920, 1080), "1.78:1 ratio");
    assert!(!BaseCore::show_advanced_positioning(&PositioningMode::RuleOfThirds));
}

#[test]
fn every_size_preset_has_its_dimensions() {
    let cases = [
        (SizePreset::LinkedIn, 400, 400),
        (SizePreset::Passport, 413, 531),
        (SizePreset::Instagram, 1080, 1080),
        (SizePreset::IdCard, 332, 498),
        (SizePreset::Avatar, 512, 512),
        (SizePreset::Headshot, 600, 800),
    ];
    for (preset, width, height) in cases {
        assert_eq!(
            BaseCore::size_preset_dimensions(preset),
            OutputDimensions { width, height }
        );
    }
}
