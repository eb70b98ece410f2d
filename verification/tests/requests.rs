use qualetize_gui::formats::{ExportFormat, ExportSource};
use qualetize_gui::requests::{large_image_size, AppStateRequest, Toast};
use qualetize_gui::worker::WorkerReply;
use qualetize_gui::engine::Progress;

#[test]
fn only_loads_of_large_images_ask_first() {
    let load = AppStateRequest::LoadImage { path: "big.png".to_string() };
    assert_eq!(large_image_size(&load, Some((1024, 768))), Some((1024, 768)));
    assert_eq!(large_image_size(&load, Some((1024, 767))), None);
    assert_eq!(large_image_size(&load, None), None);
    let bytes = AppStateRequest::LoadImageBytes { name: "drop".to_string(), bytes: vec![] };
    assert_eq!(large_image_size(&bytes, Some((4000, 3000))), Some((4000, 3000)));
    let export = AppStateRequest::ExportImageDialog { source: ExportSource::Qualetized, format: ExportFormat::Png };
    assert_eq!(large_image_size(&export, Some((4000, 3000))), None);
    assert_eq!(large_image_size(&AppStateRequest::Undo, Some((4000, 3000))), None);
}

#[test]
fn a_toast_keeps_its_message() {
    let toast = Toast::new("Saved".to_string());
    assert_eq!(toast.message, "Saved");
}

#[test]
fn only_a_done_reply_ends_a_request() {
    assert!(!WorkerReply::Progress(Progress { percent: 10, preview: None }).is_final());
    assert!(WorkerReply::QuantizeDone(None).is_final());
    assert!(WorkerReply::TileReduceDone(None).is_final());
}

#[test]
fn a_toast_made_at_a_time_keeps_it() {
    let when = std::time::Instant::now();
    let toast = Toast::at("Extended".to_string(), when);
    assert_eq!(toast.message, "Extended");
    assert_eq!(toast.time, when);
    let fresh = Toast::new("Later".to_string());
    assert!(fresh.time >= when);
}
