use face_crop_forge::base_ui::ThemeMode;
use face_crop_forge::navigation::{
    batch_file_label, render_naming_template, route_for_path, saved_theme_value,
    settings_name_key, sorted_setting_names, theme_attribute, theme_mode_from_saved, RouteTarget,
};

#[test]
fn app_primary_routes_resolve_to_expected_targets() {
    assert_eq!(route_for_path("/"), RouteTarget::Landing);
    assert_eq!(route_for_path("/single"), RouteTarget::Single);
    assert_eq!(route_for_path("/batch"), RouteTarget::Batch);
    assert_eq!(route_for_path("/csv"), RouteTarget::Csv);
}

#[test]
fn app_legacy_html_paths_resolve_to_leptos_targets() {
    assert_eq!(
        route_for_path("/single-processing.html"),
        RouteTarget::Single
    );
    assert_eq!(route_for_path("/batch-processing.html"), RouteTarget::Batch);
    assert_eq!(route_for_path("/csv-processing.html"), RouteTarget::Csv);
}

#[test]
fn helpers_primary_routes_resolve_to_expected_targets() {
    assert_eq!(route_for_path("/"), RouteTarget::Landing);
    assert_eq!(route_for_path("/single"), RouteTarget::Single);
    assert_eq!(route_for_path("/batch"), RouteTarget::Batch);
    assert_eq!(route_for_path("/csv"), RouteTarget::Csv);
}

#[test]
fn helpers_legacy_html_paths_resolve_to_leptos_targets() {
    assert_eq!(
        route_for_path("/single-processing.html"),
        RouteTarget::Single
    );
    assert_eq!(route_for_path("/batch-processing.html"), RouteTarget::Batch);
    assert_eq!(route_for_path("/csv-processing.html"), RouteTarget::Csv);
}

#[test]
fn routes_under_a_base_path_and_panels() {
    assert_eq!(route_for_path("/app/batch"), RouteTarget::Batch);
    assert_eq!(route_for_path("/_panels"), RouteTarget::Panels);
    assert_eq!(route_for_path("/unknown"), RouteTarget::Landing);
    assert_eq!(route_for_path(""), RouteTarget::Landing);
}

#[test]
fn saved_theme_reads_back_and_sets_attribute() {
    assert_eq!(theme_mode_from_saved(Some("light")), ThemeMode::Light);
    assert_eq!(theme_mode_from_saved(Some("dark")), ThemeMode::Dark);
    assert_eq!(theme_mode_from_saved(Some("other")), ThemeMode::Dark);
    assert_eq!(theme_mode_from_saved(None), ThemeMode::Dark);
    for mode in [ThemeMode::Light, ThemeMode::Dark] {
        assert_eq!(theme_mode_from_saved(Some(saved_theme_value(mode))), mode);
    }
    assert_eq!(theme_attribute(ThemeMode::Light), Some("light"));
    assert_eq!(theme_attribute(ThemeMode::Dark), None);
}

#[test]
fn batch_file_label_stops_at_double_colon() {
    assert_eq!(batch_file_label("photo.png::3"), "photo.png");
    assert_eq!(batch_file_label("a:b::c::d"), "a:b");
    assert_eq!(batch_file_label("plain.jpg"), "plain.jpg");
    assert_eq!(batch_file_label("::x"), "");
}

#[test]
fn naming_template_uses_one_based_index() {
    let name = render_naming_template(
        "{original}-{index}-{width}x{height}-{timestamp}",
        "portrait.final.jpg",
        0,
        300,
        400,
        1700000000000,
    );
    assert_eq!(name, "portrait.final-1-300x400-1700000000000");
    assert_eq!(
        render_naming_template("{index}{index}", "x", 9, 1, 1, 0),
        "1010"
    );
}

#[test]
fn settings_name_key_trims_and_rejects_blank() {
    assert_eq!(settings_name_key("  Studio  "), Ok("Studio".to_string()));
    assert_eq!(
        settings_name_key("   "),
        Err("Settings name cannot be empty".to_string())
    );
    assert_eq!(
        settings_name_key(""),
        Err("Settings name cannot be empty".to_string())
    );
}

#[test]
fn setting_names_come_out_sorted() {
    let names = vec!["beta".to_string(), "Alpha".to_string(), "alpha".to_string()];
    assert_eq!(
        sorted_setting_names(names),
        vec!["Alpha".to_string(), "alpha".to_string(), "beta".to_string()]
    );
    assert!(sorted_setting_names(Vec::new()).is_empty());
}
