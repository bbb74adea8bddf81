use rewindos::hasher::{
    create_thumbnail, image_from_rgba, image_height, image_width, screenshot_path, thumbnail_path,
    PerceptualHasher,
};

fn solid_pixels(r: u8, g: u8, b: u8, width: u32, height: u32) -> Vec<u8> {
    let mut pixels = Vec::new();
    let mut i = 0u32;
    while i < width * height {
        pixels.push(r);
        pixels.push(g);
        pixels.push(b);
        pixels.push(255);
        i += 1;
    }
    pixels
}

fn gradient_pixels(invert: bool, width: u32, height: u32) -> Vec<u8> {
    let mut pixels = Vec::new();
    let mut y = 0u32;
    while y < height {
        let mut x = 0u32;
        while x < width {
            let mut v = ((x * 4) as u8).wrapping_add((y * 4) as u8);
            if invert {
                v = 255u8.wrapping_sub(v);
            }
            pixels.push(v);
            pixels.push(v);
            pixels.push(v);
            pixels.push(255);
            x += 1;
        }
        y += 1;
    }
    pixels
}

#[test]
fn identical_images_should_have_zero_distance() {
    let hasher = PerceptualHasher::new();
    let img = image_from_rgba(&solid_pixels(100, 150, 200, 64, 64), 64, 64).unwrap();
    let hash_a = hasher.hash_image(&img);
    let hash_b = hasher.hash_image(&img);
    assert_eq!(PerceptualHasher::hamming_distance(&hash_a, &hash_b), 0);
}

#[test]
fn similar_images_should_have_low_distance() {
    let hasher = PerceptualHasher::new();
    let img_a = image_from_rgba(&solid_pixels(100, 150, 200, 64, 64), 64, 64).unwrap();
    let img_b = image_from_rgba(&solid_pixels(102, 152, 202, 64, 64), 64, 64).unwrap();
    let hash_a = hasher.hash_image(&img_a);
    let hash_b = hasher.hash_image(&img_b);
    let dist = PerceptualHasher::hamming_distance(&hash_a, &hash_b);
    assert!(dist <= 5, "similar images should have low distance, got {dist}");
}

#[test]
fn different_images_should_have_high_distance() {
    let hasher = PerceptualHasher::new();
    let img_a = image_from_rgba(&gradient_pixels(false, 64, 64), 64, 64).unwrap();
    let img_b = image_from_rgba(&gradient_pixels(true, 64, 64), 64, 64).unwrap();
    let hash_a = hasher.hash_image(&img_a);
    let hash_b = hasher.hash_image(&img_b);
    let dist = PerceptualHasher::hamming_distance(&hash_a, &hash_b);
    assert!(dist > 10, "different images should have high distance, got {dist}");
}

#[test]
fn is_duplicate_should_detect_matching_hash() {
    let hasher = PerceptualHasher::new();
    let img = image_from_rgba(&solid_pixels(100, 150, 200, 64, 64), 64, 64).unwrap();
    let hash = hasher.hash_image(&img);
    let recent = vec![(1i64, hash.clone())];
    assert!(PerceptualHasher::is_duplicate(&hash, &recent, 3));
}

#[test]
fn is_duplicate_should_reject_different_hash() {
    let hasher = PerceptualHasher::new();
    let img_a = image_from_rgba(&gradient_pixels(false, 64, 64), 64, 64).unwrap();
    let img_b = image_from_rgba(&gradient_pixels(true, 64, 64), 64, 64).unwrap();
    let hash_a = hasher.hash_image(&img_a);
    let hash_b = hasher.hash_image(&img_b);
    let recent = vec![(1i64, hash_b)];
    assert!(!PerceptualHasher::is_duplicate(&hash_a, &recent, 3));
}

#[test]
fn hamming_distance_rejects_wrong_lengths() {
    assert_eq!(
        PerceptualHasher::hamming_distance(&[0u8; 4], &[0u8; 8]),
        u32::MAX
    );
    assert_eq!(PerceptualHasher::hamming_distance(&[0u8; 8], &[0xFFu8; 8]), 64);
}

#[test]
fn create_thumbnail_should_preserve_aspect_ratio() {
    let img = image_from_rgba(&solid_pixels(100, 100, 100, 1920, 1080), 1920, 1080).unwrap();
    let thumb = create_thumbnail(&img, 320);
    assert_eq!(image_width(&thumb), 320);
    assert_eq!(image_height(&thumb), 180);
}

#[test]
fn create_thumbnail_should_not_upscale() {
    let img = image_from_rgba(&solid_pixels(100, 100, 100, 200, 100), 200, 100).unwrap();
    let thumb = create_thumbnail(&img, 320);
    assert_eq!(image_width(&thumb), 200);
    assert_eq!(image_height(&thumb), 100);
}

#[test]
fn image_from_rgba_should_handle_valid_buffer() {
    let pixels = vec![255u8; 64 * 64 * 4];
    let img = image_from_rgba(&pixels, 64, 64).unwrap();
    assert_eq!(image_width(&img), 64);
    assert_eq!(image_height(&img), 64);
}

#[test]
fn image_from_rgba_should_reject_invalid_buffer() {
    let pixels = vec![0u8; 10];
    assert!(image_from_rgba(&pixels, 64, 64).is_err());
}

#[test]
fn screenshot_path_should_format_correctly() {
    let ts_ms = 1706137200000i64;
    let path = screenshot_path("/data/screenshots", ts_ms);
    assert!(path.contains("2024-01-2"), "path should contain date: {path:?}");
    assert!(path.ends_with(".webp"));
}

#[test]
fn thumbnail_path_should_include_thumbs_dir() {
    let ts_ms = 1706137200000i64;
    let path = thumbnail_path("/data/screenshots", ts_ms);
    assert!(path.contains("thumbs"), "path should contain thumbs dir: {path:?}");
    assert!(path.ends_with("1706137200000.webp"));
}

#[test]
fn utc_date_formatting_is_exact() {
    // pins the trusted calendar wrappers to known values
    assert_eq!(rewindos::time::format_utc_date(0), "1970-01-01");
    assert_eq!(rewindos::time::format_utc_datetime(0), "1970-01-01 00:00:00");
    assert_eq!(rewindos::time::format_utc_date(1706137200), "2024-01-24");
}
