use face_crop_forge::media::{
    camera_to_start, output_mime_type,
    check_decoded_size, check_frame_ready, crop_canvas_size, video_input_choices, webcam_constraints, CameraChoice,
    MediaDeviceEntry,
};

fn entry(kind: &str, id: &str, label: &str) -> MediaDeviceEntry {
    MediaDeviceEntry {
        kind: kind.to_string(),
        device_id: id.to_string(),
        label: label.to_string(),
    }
}

#[test]
fn only_video_inputs_are_offered_with_fallback_names() {
    let devices = vec![
        entry("audioinput", "mic", "Microphone"),
        entry("videoinput", "cam-a", ""),
        entry("videoinput", "cam-b", "Front Camera"),
        entry("audiooutput", "spk", ""),
        entry("videoinput", "cam-c", ""),
    ];
    assert_eq!(
        video_input_choices(&devices),
        vec![
            ("cam-a".to_string(), "Camera 1".to_string()),
            ("cam-b".to_string(), "Front Camera".to_string()),
            ("cam-c".to_string(), "Camera 3".to_string()),
        ]
    );
    assert!(video_input_choices(&Vec::new()).is_empty());
}

#[test]
fn webcam_constraints_prefer_the_given_device() {
    let preferred = webcam_constraints(Some("cam-b"));
    assert!(!preferred.audio);
    assert_eq!((preferred.width, preferred.height), (1920, 1080));
    assert_eq!(preferred.camera, CameraChoice::Device("cam-b".to_string()));
    assert_eq!(webcam_constraints(None).camera, CameraChoice::FacingUser);
}

#[test]
fn frames_are_captured_only_once_the_video_has_a_size() {
    assert_eq!(check_frame_ready(640, 480), Ok(()));
    assert_eq!(
        check_frame_ready(0, 480),
        Err("Webcam stream is not ready yet".to_string())
    );
    assert_eq!(
        check_frame_ready(640, 0),
        Err("Webcam stream is not ready yet".to_string())
    );
}

#[test]
fn crop_canvas_is_at_least_one_pixel() {
    assert_eq!(crop_canvas_size(0, 0), (1, 1));
    assert_eq!(crop_canvas_size(512, 0), (512, 1));
    assert_eq!(crop_canvas_size(300, 400), (300, 400));
}

#[test]
fn decoded_images_need_a_size() {
    assert_eq!(check_decoded_size(1, 1), Ok(()));
    assert_eq!(
        check_decoded_size(0, 0),
        Err("Decoded image dimensions are empty".to_string())
    );
}

#[test]
fn camera_switch_falls_back_to_first_device() {
    assert_eq!(camera_to_start(3, 1), Ok(1));
    assert_eq!(camera_to_start(3, 3), Ok(0));
    assert_eq!(camera_to_start(1, 7), Ok(0));
    assert_eq!(
        camera_to_start(0, 0),
        Err("No camera devices available to switch.".to_string())
    );
}

#[test]
fn output_formats_map_to_mime_types() {
    assert_eq!(output_mime_type("jpeg"), "image/jpeg");
    assert_eq!(output_mime_type("jpg"), "image/jpeg");
    assert_eq!(output_mime_type("webp"), "image/webp");
    assert_eq!(output_mime_type("png"), "image/png");
    assert_eq!(output_mime_type("JPEG"), "image/png");
    assert_eq!(output_mime_type(""), "image/png");
}
