use face_crop_forge::base_ui::{
    aspect_ratio_display, escape_html, extract_file_name, find_matching_preset,
    generate_image_id, preview_text, processing_status_short, theme_from_storage,
    theme_storage_value, toggle_theme, SizePresetName, ThemeMode,
};

#[test]
fn file_name_extraction_matches_windows_and_unix_paths() {
    assert_eq!(extract_file_name("images/a.jpg"), "a.jpg");
    assert_eq!(extract_file_name(r"C:\tmp\b.png"), "b.png");
}

#[test]
fn html_escape_covers_common_entities() {
    assert_eq!(
        escape_html(r#"<tag attr="x&y">ok</tag>"#),
        "&lt;tag attr=&quot;x&amp;y&quot;&gt;ok&lt;/tag&gt;"
    );
}

#[test]
fn status_short_uses_text_before_first_period() {
    assert_eq!(
        processing_status_short("Loaded first page. Ready to process."),
        "Loaded first page"
    );
}

#[test]
fn preset_and_aspect_helpers_match_typescript_behavior() {
    assert_eq!(find_matching_preset(400, 400), SizePresetName::LinkedIn);
    assert_eq!(find_matching_preset(123, 456), SizePresetName::Custom);
    assert_eq!(aspect_ratio_display(1080, 1080), "1:1 (Square) ratio");
    assert_eq!(aspect_ratio_display(1600, 900), "16:9 (Widescreen) ratio");
    assert_eq!(aspect_ratio_display(500, 333), "1.50:1 ratio");
}

#[test]
fn preview_theme_and_image_id_are_stable() {
    assert_eq!(
        preview_text(256, 256, 70, "png"),
        "256×256px, face at 70% height, PNG format"
    );
    assert_eq!(generate_image_id(1000, 15), "img_1000_00000000f");
    assert_eq!(toggle_theme(ThemeMode::Light), ThemeMode::Dark);
    assert_eq!(theme_storage_value(ThemeMode::Light), None);
    assert_eq!(theme_storage_value(ThemeMode::Dark), Some("dark"));
    assert_eq!(theme_from_storage(Some("dark")), ThemeMode::Dark);
}
