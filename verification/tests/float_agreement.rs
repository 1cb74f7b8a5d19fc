use face_crop_forge::base_core::BaseCore;
use face_crop_forge::base_runtime::{reduced_resolution_dimensions, Dimensions};
use face_crop_forge::base_ui::aspect_ratio_display;
use face_crop_forge::batch_core::BatchRuntimeStats;

fn reference_ratio_display(width: u32, height: u32) -> String {
    if width == 0 || height == 0 {
        return "0.00:1 ratio".to_string();
    }
    let ratio = width as f32 / height as f32;
    let text = if (ratio - 1.0).abs() < 0.01 {
        "1:1 (Square)".to_string()
    } else if (ratio - (4.0 / 3.0)).abs() < 0.01 {
        "4:3 (Standard)".to_string()
    } else if (ratio - (16.0 / 9.0)).abs() < 0.01 {
        "16:9 (Widescreen)".to_string()
    } else if (ratio - (3.0 / 4.0)).abs() < 0.01 {
        "3:4 (Portrait)".to_string()
    } else {
        format!("{ratio:.2}:1")
    };
    format!("{text} ratio")
}

#[test]
fn ratio_texts_agree_with_f32_arithmetic() {
    for width in (0..=420u32).step_by(7) {
        for height in (0..=420u32).step_by(11) {
            assert_eq!(
                aspect_ratio_display(width, height),
                reference_ratio_display(width, height),
                "{width}x{height}"
            );
            let ratio = if height == 0 { 0.0 } else { width as f32 / height as f32 };
            assert_eq!(
                BaseCore::aspect_ratio_text(width, height),
                format!("{ratio:.2}:1 ratio")
            );
        }
    }
    for (width, height) in [(1920, 1080), (1080, 1920), (4000, 3000), (3000, 4000), (1, 3), (7, 2)] {
        assert_eq!(
            aspect_ratio_display(width, height),
            reference_ratio_display(width, height)
        );
    }
}

#[test]
fn halved_dimensions_agree_with_f32_arithmetic() {
    let mut samples: Vec<u32> = (0..2000).collect();
    samples.extend([16_777_215, 16_777_216, 16_777_217, 16_777_219, 33_554_437, u32::MAX - 1, u32::MAX]);
    for n in samples {
        let out = reduced_resolution_dimensions(Dimensions { width: n, height: n }, true);
        let expected = ((n as f32) * 0.5).floor().max(1.0) as u32;
        assert_eq!(out.width, expected, "{n}");
        assert_eq!(out.height, expected, "{n}");
    }
}

#[test]
fn success_rates_and_means_agree_with_f64_arithmetic() {
    let mut stats = BatchRuntimeStats::default();
    let mut successes = 0u64;
    for i in 0..300u64 {
        let success = i % 3 != 1;
        if success {
            successes += 1;
        }
        stats.record_image(i * 7 + 1, 0, success);
        let expected = ((successes as f64 / (i + 1) as f64) * 100.0).round() as u32;
        assert_eq!(stats.success_rate_pct(), expected);
        let kept = &stats.processing_times_ms;
        let sum: u64 = kept.iter().sum();
        let mean = (sum as f64 / kept.len() as f64).round() as u64;
        assert_eq!(stats.avg_processing_time_ms(), mean);
    }
}
