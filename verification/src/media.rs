//! Decisions around the camera and the crop canvas: which enumerated devices
//! are offered as cameras and under which names, the constraints a webcam
//! stream is requested with, when a frame can be captured, and the size of the
//! canvas a face crop is drawn on.
use crate::text::{decimal, push_decimal, push_str, str_eq};
use vstd::prelude::*;

verus! {

/// One device reported by the browser's device enumeration.
#[derive(Clone, Debug, PartialEq, Eq)]
pub struct MediaDeviceEntry {
    pub kind: String,
    pub device_id: String,
    pub label: String,
}

pub open spec fn entry_view(e: MediaDeviceEntry) -> (Seq<char>, Seq<char>, Seq<char>) {
    (e.kind@, e.device_id@, e.label@)
}

pub open spec fn entries_view(v: Seq<MediaDeviceEntry>) -> Seq<(Seq<char>, Seq<char>, Seq<char>)> {
    v.map_values(|e: MediaDeviceEntry| entry_view(e))
}

pub open spec fn pairs_view(v: Seq<(String, String)>) -> Seq<(Seq<char>, Seq<char>)> {
    v.map_values(|p: (String, String)| (p.0@, p.1@))
}

/// The cameras offered, in enumeration order: each `videoinput` device with
/// its id and its label, or `Camera <n>` (its place among the cameras,
/// counted from one) when the label is empty.
pub open spec fn camera_choices(devices: Seq<(Seq<char>, Seq<char>, Seq<char>)>) -> Seq<
    (Seq<char>, Seq<char>),
>
    decreases devices.len(),
{
    if devices.len() == 0 {
        Seq::empty()
    } else {
        let before = camera_choices(devices.drop_last());
        let d = devices.last();
        if d.0 == "videoinput"@ {
            let name = if d.2.len() == 0 {
                "Camera "@ + decimal(before.len() + 1)
            } else {
                d.2
            };
            before.push((d.1, name))
        } else {
            before
        }
    }
}

proof fn lemma_camera_choices_len(devices: Seq<(Seq<char>, Seq<char>, Seq<char>)>)
    ensures
        camera_choices(devices).len() <= devices.len(),
    decreases devices.len(),
{
    if devices.len() > 0 {
        lemma_camera_choices_len(devices.drop_last());
    }
}

/// The `(device id, name)` of each camera among the enumerated devices.
pub fn video_input_choices(devices: &Vec<MediaDeviceEntry>) -> (choices: Vec<(String, String)>)
    ensures
        pairs_view(choices@) == camera_choices(entries_view(devices@)),
{
    let mut out: Vec<(String, String)> = Vec::new();
    let mut i: usize = 0;
    while i < devices.len()
        invariant
            i <= devices.len(),
            pairs_view(out@) == camera_choices(entries_view(devices@.take(i as int))),
        decreases devices.len() - i,
    {
        let ghost before = devices@.take(i as int);
        proof {
            assert(devices@.take(i + 1).drop_last() == before);
            assert(entries_view(devices@.take(i + 1)).drop_last() == entries_view(before));
            assert(entries_view(devices@.take(i + 1)).last() == entry_view(devices@[i as int]));
            lemma_camera_choices_len(entries_view(before));
        }
        let d = &devices[i];
        if str_eq(d.kind.as_str(), "videoinput") {
            let name = if d.label.as_str().is_empty() {
                let mut n = String::new();
                push_str(&mut n, "Camera ");
                push_decimal(&mut n, out.len() as u128 + 1);
                n
            } else {
                d.label.clone()
            };
            let ghost pv = pairs_view(out@);
            out.push((d.device_id.clone(), name));
            proof {
                assert(pairs_view(out@) =~= pv.push((d.device_id@, name@)));
            }
        }
        i = i + 1;
    }
    proof {
        assert(devices@.take(i as int) == devices@);
    }
    out
}

/// Which camera a webcam stream asks for.
#[derive(Clone, Debug, PartialEq, Eq)]
pub enum CameraChoice {
    /// Exactly the device with this id.
    Device(String),
    /// The camera that faces the user.
    FacingUser,
}

/// The constraints a webcam stream is requested with.
#[derive(Clone, Debug, PartialEq, Eq)]
pub struct WebcamConstraints {
    pub audio: bool,
    pub width: u32,
    pub height: u32,
    pub camera: CameraChoice,
}

/// Video only, 1920 by 1080, from the preferred device when one is given and
/// from the user-facing camera otherwise.
pub fn webcam_constraints(preferred_device_id: Option<&str>) -> (c: WebcamConstraints)
    ensures
        !c.audio,
        c.width == 1920,
        c.height == 1080,
        match preferred_device_id {
            Some(id) => c.camera matches CameraChoice::Device(d) && d@ == id@,
            None => c.camera == CameraChoice::FacingUser,
        },
{
    let camera = match preferred_device_id {
        Some(id) => CameraChoice::Device(String::from_str(id)),
        None => CameraChoice::FacingUser,
    };
    WebcamConstraints { audio: false, width: 1920, height: 1080, camera }
}

/// A frame can be captured once the video reports a size.
pub fn check_frame_ready(width: u32, height: u32) -> (r: Result<(), String>)
    ensures
        r is Ok <==> (width > 0 && height > 0),
        match r {
            Ok(_) => true,
            Err(e) => e@ == "Webcam stream is not ready yet"@,
        },
{
    if width == 0 || height == 0 {
        Err(String::from_str("Webcam stream is not ready yet"))
    } else {
        Ok(())
    }
}

/// A decoded image can be drawn once it reports a size.
pub fn check_decoded_size(width: u32, height: u32) -> (r: Result<(), String>)
    ensures
        r is Ok <==> (width > 0 && height > 0),
        match r {
            Ok(_) => true,
            Err(e) => e@ == "Decoded image dimensions are empty"@,
        },
{
    if width == 0 || height == 0 {
        Err(String::from_str("Decoded image dimensions are empty"))
    } else {
        Ok(())
    }
}

/// The crop canvas: the output size, at least one pixel each way.
pub fn crop_canvas_size(output_width: u32, output_height: u32) -> (size: (u32, u32))
    ensures
        size.0 == (if output_width == 0 {
            1
        } else {
            output_width
        }),
        size.1 == (if output_height == 0 {
            1
        } else {
            output_height
        }),
{
    (if output_width == 0 {
        1
    } else {
        output_width
    }, if output_height == 0 {
        1
    } else {
        output_height
    })
}

/// The camera a switch starts: none when there is no device, else the
/// active index, or the first device when the index is out of range.
pub fn camera_to_start(device_count: usize, active_index: usize) -> (r: Result<usize, String>)
    ensures
        match r {
            Ok(i) => device_count > 0 && i == (if active_index < device_count {
                active_index
            } else {
                0
            }),
            Err(e) => device_count == 0 && e@ == "No camera devices available to switch."@,
        },
{
    if device_count == 0 {
        Err(String::from_str("No camera devices available to switch."))
    } else if active_index >= device_count {
        Ok(0)
    } else {
        Ok(active_index)
    }
}

/// The MIME type of an output format: `jpeg` and `jpg` are JPEG, `webp` is
/// WebP, anything else is PNG.
pub open spec fn mime_type_of(output_format: Seq<char>) -> Seq<char> {
    if output_format == "jpeg"@ || output_format == "jpg"@ {
        "image/jpeg"@
    } else if output_format == "webp"@ {
        "image/webp"@
    } else {
        "image/png"@
    }
}

pub fn output_mime_type(output_format: &str) -> (m: &'static str)
    ensures
        m@ == mime_type_of(output_format@),
{
    if str_eq(output_format, "jpeg") || str_eq(output_format, "jpg") {
        "image/jpeg"
    } else if str_eq(output_format, "webp") {
        "image/webp"
    } else {
        "image/png"
    }
}

} // verus!
