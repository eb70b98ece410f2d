//! What the UI and the dialogs hand to the app state, and the short notices
//! the app draws over an image panel.

use vstd::prelude::*;
use std::time::Instant;
use crate::formats::{ExportFormat, ExportSource};
use crate::time::now;
use crate::indexed::{LARGE_IMAGE_PIXELS, is_large_image};

verus! {

/// A request for the app state, sent by a dialog or a button.
#[derive(Debug, Clone)]
pub enum AppStateRequest {
    LoadImage { path: String },
    /// An image that arrived as bytes (drag and drop on the web, a fetched
    /// URL); `name` stands in for the path.
    LoadImageBytes { name: String, bytes: Vec<u8> },
    LoadSettings { path: String },
    /// Settings that arrived as bytes, from a browser file dialog.
    LoadSettingsBytes { name: String, bytes: Vec<u8> },
    OpenImageDialog,
    /// Drop the loaded image and everything derived from it, after asking.
    RemoveImage,
    ExportImageDialog { source: ExportSource, format: ExportFormat },
    SaveSettingsDialog,
    LoadSettingsDialog,
    Undo,
    Redo,
    /// Put the settings of the result with this hash back in use.
    ApplyResult { hash: u64 },
    /// Write the result with this hash out in the selected export format.
    ExportResult { hash: u64 },
    /// Drop the result with this hash from the list.
    RemoveResult { hash: u64 },
}

/// Whether `request` loads an image.
pub open spec fn loads_image(request: AppStateRequest) -> bool {
    request is LoadImage || request is LoadImageBytes
}

/// The size of the image `request` loads, when that image is large enough to
/// ask before loading it. `dimensions` is what reading the image's header
/// gave, if it could be read.
pub fn large_image_size(request: &AppStateRequest, dimensions: Option<(u32, u32)>) -> (size: Option<(u32, u32)>)
    ensures
        size == match dimensions {
            Some((width, height)) => if loads_image(*request) && width as nat * height as nat
                >= LARGE_IMAGE_PIXELS {
                Some((width, height))
            } else {
                None
            },
            None => None,
        },
{
    match request {
        AppStateRequest::LoadImage { .. } | AppStateRequest::LoadImageBytes { .. } => {},
        _ => return None,
    }
    match dimensions {
        Some((width, height)) => if is_large_image(width, height) {
            Some((width, height))
        } else {
            None
        },
        None => None,
    }
}

/// A request to run the quantization, stamped with when it was made.
#[derive(Debug, Clone)]
pub struct QualetizeRequest {
    pub time: Instant,
}

/// A short lived message drawn over an image panel.
#[derive(Clone)]
pub struct Toast {
    pub message: String,
    pub time: Instant,
}

impl Toast {
    /// A toast showing `message`, stamped with `time`.
    pub fn at(message: String, time: Instant) -> (toast: Self)
        ensures
            toast.message@ == message@,
            toast.time == time,
    {
        Toast { message, time }
    }

    /// A toast showing `message`, stamped with the current time.
    pub fn new(message: String) -> (toast: Self)
        ensures
            toast.message@ == message@,
    {
        Toast::at(message, now())
    }
}

} // verus!
