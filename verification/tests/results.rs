use qualetize_gui::formats::BGRA8;
use qualetize_gui::indexed::ImageDataIndexed;
use qualetize_gui::results::{detect_change, hash_result, skipping, ChangeKind, Results, ResultsView, Thumbnail, CAP};
use std::time::Instant;

fn color(r: u8, g: u8, b: u8) -> BGRA8 {
    BGRA8 { b, g, r, a: 255 }
}

/// A 4x4 image whose every pixel is index `index`, over a two color palette.
fn image(index: u8) -> ImageDataIndexed {
    ImageDataIndexed::new(vec![color(0, 0, 0), color(255, 255, 255)], 2, vec![index; 16])
}

fn thumbnail() -> Thumbnail {
    Thumbnail { width: 1, height: 1, rgba: vec![10, 20, 30, 255] }
}

fn record(results: &mut Results<&'static str>, indexed: &ImageDataIndexed) -> bool {
    results.record(indexed, thumbnail(), 4, 4, "settings", Instant::now())
}

#[test]
fn an_unchanged_order_is_no_change() {
    assert_eq!(detect_change(&[1, 2, 3], &[1, 2, 3]), None);
    assert_eq!(detect_change(&[], &[]), None);
}

#[test]
fn a_hash_that_is_new_at_the_top_is_an_addition() {
    assert_eq!(detect_change(&[1, 2], &[9, 1, 2]), Some(ChangeKind::Added { hash: 9 }));
    assert_eq!(detect_change(&[], &[9]), Some(ChangeKind::Added { hash: 9 }));
}

#[test]
fn a_hash_taken_from_further_down_is_a_move() {
    assert_eq!(
        detect_change(&[1, 2, 3, 4], &[3, 1, 2, 4]),
        Some(ChangeKind::Moved { hash: 3, old_index: 2 })
    );
    assert_eq!(detect_change(&[1, 2], &[2, 1]), Some(ChangeKind::Moved { hash: 2, old_index: 1 }));
}

#[test]
fn a_removal_or_an_emptied_list_is_no_change() {
    assert_eq!(detect_change(&[1, 2, 3], &[1, 3]), None);
    assert_eq!(detect_change(&[1, 2, 3], &[2, 3]), None);
    assert_eq!(detect_change(&[1, 2, 3], &[]), None);
}

#[test]
fn several_changes_at_once_are_no_change() {
    assert_eq!(detect_change(&[1, 2, 3], &[9, 1, 2]), None);
    assert_eq!(detect_change(&[1, 2, 3], &[3, 1]), None);
    assert_eq!(detect_change(&[1, 2, 3], &[1, 3, 2]), None);
}

#[test]
fn a_change_names_the_hash_that_reached_the_top() {
    assert_eq!(ChangeKind::Added { hash: 7 }.hash(), 7);
    assert_eq!(ChangeKind::Moved { hash: 8, old_index: 3 }.hash(), 8);
}

#[test]
fn skipping_leaves_out_one_position() {
    assert_eq!(skipping(&[1, 2, 3], 1), vec![1, 3]);
    assert_eq!(skipping(&[1, 2, 3], 0), vec![2, 3]);
    assert_eq!(skipping(&[1, 2, 3], 7), vec![1, 2, 3]);
}

#[test]
fn the_hash_is_fnv_1a_over_pixels_then_palette_bytes() {
    // FNV-1a of no bytes is the offset basis.
    assert_eq!(hash_result(&[], &[]), 0xcbf2_9ce4_8422_2325);
    // FNV-1a of the single byte "a" (0x61).
    assert_eq!(hash_result(&[0x61], &[]), 0xaf63_dc4c_8601_ec8c);
    // The palette is hashed as b, g, r, a bytes after the pixels.
    let palette = [BGRA8 { b: 0x61, g: 0x62, r: 0x63, a: 0x64 }];
    let mut expected: u64 = 0xcbf2_9ce4_8422_2325;
    for byte in [1u8, 2, 0x61, 0x62, 0x63, 0x64] {
        expected ^= byte as u64;
        expected = expected.wrapping_mul(0x0000_0100_0000_01b3);
    }
    assert_eq!(hash_result(&[1, 2], &palette), expected);
}

#[test]
fn recording_the_same_image_twice_moves_it_to_the_front() {
    let mut results = Results::default();
    assert!(record(&mut results, &image(0)));
    assert!(record(&mut results, &image(1)));
    assert_eq!(results.len(), 2);

    assert!(!record(&mut results, &image(0)));
    assert_eq!(results.len(), 2);
    assert_eq!(results.entries()[0].hash, hash_result(&image(0).indexed_pixels, &image(0).palettes));
}

#[test]
fn a_moved_entry_takes_the_new_settings() {
    let mut results: Results<&'static str> = Results::new(10);
    results.record(&image(0), thumbnail(), 4, 4, "first", Instant::now());
    results.record(&image(1), thumbnail(), 4, 4, "second", Instant::now());
    assert!(!results.record(&image(0), thumbnail(), 4, 4, "third", Instant::now()));
    assert_eq!(results.entries()[0].settings, "third");
    assert_eq!(results.entries()[1].settings, "second");
}

#[test]
fn different_images_grow_the_list() {
    let mut results = Results::default();
    for index in 0..3u8 {
        assert!(record(&mut results, &image(index)));
    }
    assert_eq!(results.len(), 3);
}

#[test]
fn the_cap_drops_the_oldest_entry() {
    let mut results = Results::new(3);
    for index in 0..5u8 {
        record(&mut results, &image(index));
    }
    assert_eq!(results.len(), 3);
    let newest = &results.entries()[0];
    assert_eq!(newest.decode().expect("decodes").indexed_pixels[0], 4);
    let oldest = &results.entries()[2];
    assert_eq!(oldest.decode().expect("decodes").indexed_pixels[0], 2);
}

#[test]
fn the_default_list_keeps_fifty_entries() {
    let mut results = Results::default();
    for index in 0..(CAP as u8 + 5) {
        record(&mut results, &image(index));
    }
    assert_eq!(results.len(), CAP);
}

#[test]
fn a_zero_cap_still_keeps_one_entry() {
    let mut results = Results::new(0);
    record(&mut results, &image(1));
    record(&mut results, &image(2));
    assert_eq!(results.len(), 1);
}

#[test]
fn decoding_round_trips_the_pixels() {
    let mut results = Results::default();
    let pixels: Vec<u8> = (0..16u8).collect();
    let indexed = ImageDataIndexed::new(vec![color(1, 2, 3); 16], 16, pixels.clone());
    record(&mut results, &indexed);

    let entry = &results.entries()[0];
    assert!(entry.compressed_len() > 0);
    let decoded = entry.decode().expect("decodes");
    assert_eq!(decoded.indexed_pixels, pixels);
    assert_eq!(decoded.palettes, indexed.palettes);
    assert_eq!(decoded.colors_per_palette(), 16);
}

#[test]
fn a_result_of_the_wrong_size_does_not_decode() {
    let mut results = Results::default();
    let indexed = ImageDataIndexed::new(vec![color(1, 2, 3)], 1, vec![0; 10]);
    results.record(&indexed, thumbnail(), 4, 4, "settings", Instant::now());
    let error = results.entries()[0].decode().err().expect("ten pixels are not 4x4");
    assert_eq!(error, "Result pixels are 10 bytes, expected 16");
}

#[test]
fn removing_and_clearing_shrink_the_list() {
    let mut results = Results::default();
    for index in 0..3u8 {
        record(&mut results, &image(index));
    }
    results.remove(1);
    assert_eq!(results.len(), 2);
    results.remove(99);
    assert_eq!(results.len(), 2);
    results.clear();
    assert!(results.is_empty());
}

#[test]
fn the_hash_differs_when_a_palette_entry_differs() {
    let pixels = vec![0u8; 16];
    let a = ImageDataIndexed::new(vec![color(0, 0, 0), color(255, 255, 255)], 2, pixels.clone());
    let b = ImageDataIndexed::new(vec![color(0, 0, 0), color(255, 255, 254)], 2, pixels);
    assert_ne!(hash_result(&a.indexed_pixels, &a.palettes), hash_result(&b.indexed_pixels, &b.palettes));

    let mut results = Results::default();
    assert!(record(&mut results, &a));
    assert!(record(&mut results, &b));
    assert_eq!(results.len(), 2);
}

#[test]
fn stored_pixels_are_compressed() {
    let mut results = Results::default();
    let indexed = ImageDataIndexed::new(vec![color(1, 2, 3)], 1, vec![0; 64 * 64]);
    results.record(&indexed, thumbnail(), 64, 64, "settings", Instant::now());
    let entry = &results.entries()[0];
    assert!(entry.compressed_len() < 64 * 64 / 10, "{} bytes", entry.compressed_len());
    assert_ne!(entry.pixels, vec![0; 64 * 64]);
    assert_eq!(entry.decode().expect("decodes").indexed_pixels, vec![0; 64 * 64]);
}

#[test]
fn the_view_animates_a_change_of_order_once() {
    let mut view = ResultsView { last_order: vec![], animation: None };
    let now = Instant::now();
    view.observe_order(vec![1], now);
    assert_eq!(view.last_order, [1]);
    assert_eq!(view.animation.as_ref().map(|a| a.kind), Some(ChangeKind::Added { hash: 1 }));

    view.observe_order(vec![2, 1], now);
    assert_eq!(view.animation.as_ref().map(|a| a.kind), Some(ChangeKind::Added { hash: 2 }));

    view.observe_order(vec![1, 2], now);
    assert_eq!(view.animation.as_ref().map(|a| a.kind), Some(ChangeKind::Moved { hash: 1, old_index: 1 }));

    // The same order again keeps the running animation.
    view.observe_order(vec![1, 2], now);
    assert_eq!(view.animation.as_ref().map(|a| a.kind), Some(ChangeKind::Moved { hash: 1, old_index: 1 }));

    // A removal is not animated.
    view.observe_order(vec![2], now);
    assert!(view.animation.is_none());
    assert_eq!(view.last_order, [2]);

    view.observe_order(vec![], now);
    assert!(view.last_order.is_empty());
    assert!(view.animation.is_none());
}

#[test]
fn an_entry_is_found_by_its_hash() {
    let mut results = Results::default();
    record(&mut results, &image(0));
    record(&mut results, &image(1));
    let newest = results.entries()[0].hash;
    let oldest = results.entries()[1].hash;
    assert_eq!(results.find_hash(newest), Some(0));
    assert_eq!(results.find_hash(oldest), Some(1));
    assert_eq!(results.find_hash(newest ^ oldest ^ 1), None);
}
