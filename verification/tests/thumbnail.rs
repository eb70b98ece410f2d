use qualetize_gui::results::THUMBNAIL_SIZE;
use qualetize_gui::thumbnail::thumbnail_of;

fn rgba(width: u32, height: u32, pixel: [u8; 4]) -> Vec<u8> {
    pixel.iter().copied().cycle().take(width as usize * height as usize * 4).collect()
}

/// The same downscale done with binary64 arithmetic, for comparison.
fn binary64_thumbnail(rgba: &[u8], width: u32, height: u32) -> (u32, u32, Vec<u8>) {
    let longest = width.max(height);
    if width == 0 || height == 0 || longest <= THUMBNAIL_SIZE {
        return (width, height, rgba.to_vec());
    }
    let scale = THUMBNAIL_SIZE as f64 / longest as f64;
    let dst_width = ((width as f64 * scale).round() as u32).max(1);
    let dst_height = ((height as f64 * scale).round() as u32).max(1);
    let cells = dst_width as usize * dst_height as usize;
    let mut sums = vec![[0u64; 4]; cells];
    let mut counts = vec![0u64; cells];
    for y in 0..height as usize {
        let dst_y = (((y as f64 + 0.5) * scale) as usize).min(dst_height as usize - 1);
        let row = dst_y * dst_width as usize;
        for x in 0..width as usize {
            let dst_x = (((x as f64 + 0.5) * scale) as usize).min(dst_width as usize - 1);
            let src = (y * width as usize + x) * 4;
            let Some(pixel) = rgba.get(src..src + 4) else {
                continue;
            };
            let cell = row + dst_x;
            for (sum, &channel) in sums[cell].iter_mut().zip(pixel) {
                *sum += channel as u64;
            }
            counts[cell] += 1;
        }
    }
    let mut out = Vec::with_capacity(cells * 4);
    for (sum, count) in sums.iter().zip(&counts) {
        let count = (*count).max(1);
        for channel in sum {
            out.push((channel / count) as u8);
        }
    }
    (dst_width, dst_height, out)
}

fn noise(width: u32, height: u32, seed: u64) -> Vec<u8> {
    let mut state = seed;
    (0..width as usize * height as usize * 4)
        .map(|_| {
            state = state.wrapping_mul(6364136223846793005).wrapping_add(1442695040888963407);
            (state >> 56) as u8
        })
        .collect()
}

#[test]
fn a_thumbnail_keeps_the_aspect_ratio() {
    let thumbnail = thumbnail_of(&rgba(800, 400, [0, 0, 0, 255]), 800, 400);
    assert_eq!((thumbnail.width, thumbnail.height), (THUMBNAIL_SIZE, 80));
    assert_eq!(thumbnail.rgba.len(), thumbnail.width as usize * thumbnail.height as usize * 4);

    let tall = thumbnail_of(&rgba(400, 800, [0, 0, 0, 255]), 400, 800);
    assert_eq!((tall.width, tall.height), (80, THUMBNAIL_SIZE));
}

#[test]
fn a_small_image_is_not_upscaled() {
    let source = rgba(10, 20, [1, 2, 3, 4]);
    let thumbnail = thumbnail_of(&source, 10, 20);
    assert_eq!((thumbnail.width, thumbnail.height), (10, 20));
    assert_eq!(thumbnail.rgba, source);
}

#[test]
fn a_uniform_image_thumbnails_to_that_color() {
    let pixel = [12, 34, 56, 78];
    let thumbnail = thumbnail_of(&rgba(500, 300, pixel), 500, 300);
    assert!(thumbnail.rgba.chunks_exact(4).all(|c| c == pixel));
}

#[test]
fn sizes_match_binary64_arithmetic() {
    for longest in [161u32, 162, 199, 200, 321, 333, 480, 500, 641, 999, 1000, 1023, 1920, 4097, 12345, 65535] {
        for other in [1u32, 2, 3, 7, 100, 159, 160, 161, 333, 479, 999, 1080, 12345] {
            if other > longest || longest as u64 * other as u64 > 1_500_000 {
                continue;
            }
            for (w, h) in [(longest, other), (other, longest)] {
                let (rw, rh, _) = binary64_thumbnail(&[], w, h);
                let t = thumbnail_of(&[], w, h);
                assert_eq!((t.width, t.height), (rw, rh), "{w}x{h}");
            }
        }
    }
}

#[test]
fn cells_match_binary64_arithmetic() {
    for (w, h, seed) in [(161u32, 7u32, 1u64), (333, 200, 2), (500, 499, 3), (640, 480, 4), (1000, 3, 5), (257, 1023, 6)] {
        let image = noise(w, h, seed);
        let (rw, rh, rout) = binary64_thumbnail(&image, w, h);
        let t = thumbnail_of(&image, w, h);
        assert_eq!((t.width, t.height), (rw, rh), "{w}x{h}");
        assert_eq!(t.rgba, rout, "{w}x{h}");
    }
}

#[test]
fn a_short_buffer_leaves_the_missing_pixels_out() {
    // Only the first 300 of 400x300 pixels are present.
    let mut image = rgba(400, 300, [9, 9, 9, 9]);
    image.truncate(300 * 4);
    let (rw, rh, rout) = binary64_thumbnail(&image, 400, 300);
    let t = thumbnail_of(&image, 400, 300);
    assert_eq!((t.width, t.height), (rw, rh));
    assert_eq!(t.rgba, rout);
}
