use vstd::prelude::*;

pub mod base_core;
pub mod base_runtime;
pub mod base_ui;
pub mod batch_core;
pub mod batch_export;
pub mod batch_run;
pub mod binary_float;
pub mod media;
pub mod navigation;
pub mod ordered;
pub mod text;

verus! {
}
