use uma_helper::imaging::{
    analyze_text_brightness, condition_gray, condition_image, crop_image, data_url_of, encode_png,
    image_to_base64, invert_image, preprocess_image_for_ocr, CaptureArea, ColorImage, GrayImage,
};

fn gray(width: u32, height: u32, value: u8) -> GrayImage {
    GrayImage { width, height, pixels: vec![value; (width * height) as usize] }
}

fn color(width: u32, height: u32) -> ColorImage {
    let mut pixels = Vec::new();
    for i in 0..(width * height) {
        pixels.extend_from_slice(&[(i % 256) as u8, (i / 256) as u8, 7, 255]);
    }
    ColorImage { width, height, pixels }
}

#[test]
fn all_black_is_inverted() {
    assert!(analyze_text_brightness(&gray(10, 10, 0)));
}

#[test]
fn all_white_is_not_inverted() {
    assert!(!analyze_text_brightness(&gray(10, 10, 255)));
}

#[test]
fn exactly_sixty_percent_is_not_inverted() {
    // One row, 17 columns: the samples are at 0, 4, 8, 12, 16.
    let mut img = gray(17, 1, 255);
    for x in [0usize, 4, 8] {
        img.pixels[x] = 0;
    }
    assert!(!analyze_text_brightness(&img));
    img.pixels[12] = 127;
    assert!(analyze_text_brightness(&img));
}

#[test]
fn only_sampled_pixels_count() {
    // Dark pixels off the stride-4 grid do not matter.
    let mut img = gray(8, 8, 255);
    for y in 0..8 {
        for x in 0..8 {
            if x % 4 != 0 || y % 4 != 0 {
                img.pixels[y * 8 + x] = 0;
            }
        }
    }
    assert!(!analyze_text_brightness(&img));
}

#[test]
fn zero_area_is_not_inverted() {
    assert!(!analyze_text_brightness(&gray(0, 5, 0)));
    assert!(!analyze_text_brightness(&gray(5, 0, 0)));
}

#[test]
fn inversion_flips_values() {
    let img = GrayImage { width: 3, height: 1, pixels: vec![0, 100, 255] };
    let inv = invert_image(&img);
    assert_eq!(inv.pixels, vec![255, 155, 0]);
    assert_eq!((inv.width, inv.height), (3, 1));
}

#[test]
fn conditioning_black_image() {
    let black = gray(3, 2, 0);
    let plain = condition_gray(&black, false);
    assert_eq!((plain.width, plain.height), (6, 4));
    assert_eq!(plain.pixels.len(), 6 * 4 * 4);
    for px in plain.pixels.chunks(4) {
        assert_eq!(px, &[0, 0, 0, 255]);
    }
    let inverted = condition_gray(&black, true);
    assert!(inverted.pixels.iter().all(|&v| v == 255));
}

#[test]
fn conditioning_from_color() {
    let black = ColorImage { width: 2, height: 2, pixels: vec![0, 0, 0, 255].repeat(4) };
    let out = condition_image(&black, false);
    assert_eq!((out.width, out.height), (4, 4));
    for px in out.pixels.chunks(4) {
        assert_eq!(px, &[0, 0, 0, 255]);
    }
    // A dark capture is inverted by the full preprocessing.
    let pre = preprocess_image_for_ocr(&black);
    assert!(pre.pixels.iter().all(|&v| v == 255));
}

#[test]
fn conditioning_is_deterministic() {
    let img = color(9, 5);
    let a = preprocess_image_for_ocr(&img);
    let b = preprocess_image_for_ocr(&img.clone());
    assert_eq!(a.pixels, b.pixels);
    assert_eq!((a.width, a.height), (18, 10));
    let c = condition_image(&img, true);
    let d = condition_image(&img, true);
    assert_eq!(c.pixels, d.pixels);
}

#[test]
fn crop_inside() {
    let img = color(4, 3);
    let out = crop_image(&img, CaptureArea { x: 1, y: 1, width: 2, height: 2 }).unwrap();
    assert_eq!((out.width, out.height), (2, 2));
    // Pixel (1, 1) of the source is index 5, pixel (2, 2) is index 10.
    assert_eq!(&out.pixels[0..4], &[5, 0, 7, 255]);
    assert_eq!(&out.pixels[12..16], &[10, 0, 7, 255]);
}

#[test]
fn crop_clamps_to_image() {
    let img = color(4, 3);
    let out = crop_image(&img, CaptureArea { x: -5, y: 2, width: 100, height: 100 }).unwrap();
    assert_eq!((out.width, out.height), (4, 1));
    assert_eq!(&out.pixels[0..4], &[8, 0, 7, 255]);
}

#[test]
fn crop_outside_is_refused() {
    let img = color(4, 3);
    assert_eq!(
        crop_image(&img, CaptureArea { x: 4, y: 0, width: 2, height: 2 }).unwrap_err(),
        "Invalid crop area"
    );
    assert!(crop_image(&img, CaptureArea { x: 0, y: 0, width: 0, height: 2 }).is_err());
}

#[test]
fn png_encoding_has_signature() {
    let bytes = encode_png(&color(2, 2)).unwrap();
    assert_eq!(&bytes[0..8], &[137, 80, 78, 71, 13, 10, 26, 10]);
}

#[test]
fn data_url_of_png() {
    let url = image_to_base64(&color(2, 2)).unwrap();
    assert!(url.starts_with("data:image/png;base64,iVBORw0KGgo"), "{}", url);
}

#[test]
fn data_url_from_encoded_bytes() {
    assert_eq!(data_url_of(Ok(vec![1, 2, 3])).unwrap(), "data:image/png;base64,AQID");
    assert_eq!(data_url_of(Ok(vec![])).unwrap(), "data:image/png;base64,");
    assert_eq!(
        data_url_of(Err("bad size".to_string())).unwrap_err(),
        "Failed to encode image to PNG: bad size"
    );
}
