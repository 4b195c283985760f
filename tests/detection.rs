use curve_extract::color::{color_matches_range, rgb_to_hsv};
use curve_extract::detect::detect_colors;
use curve_extract::palette::{get_color_ranges, palette_key, BaseColor};
use curve_extract::raster::{decode_image, CurveError};
use image::{ImageFormat, Rgb, RgbImage};
use std::io::Cursor;

fn png_bytes(img: &RgbImage) -> Vec<u8> {
    let mut buf = Cursor::new(Vec::new());
    img.write_to(&mut buf, ImageFormat::Png).unwrap();
    buf.into_inner()
}

fn classify(r: u8, g: u8, b: u8) -> Vec<BaseColor> {
    let h = rgb_to_hsv(r, g, b);
    get_color_ranges()
        .iter()
        .filter(|c| color_matches_range(&h, c))
        .map(|c| c.base)
        .collect()
}

#[test]
fn empty_buffer_is_rejected() {
    assert!(matches!(detect_colors(&[]), Err(CurveError::EmptyInput)));
    assert!(matches!(decode_image(&[]), Err(CurveError::EmptyInput)));
}

#[test]
fn garbage_bytes_are_an_invalid_image() {
    let r = detect_colors(&[1, 2, 3, 4, 5, 6, 7, 8, 9]);
    match r {
        Err(CurveError::InvalidImage(msg)) => assert!(!msg.is_empty()),
        _ => panic!("expected InvalidImage"),
    }
}

#[test]
fn decoding_yields_the_pixels() {
    let mut img = RgbImage::from_pixel(3, 2, Rgb([10, 20, 30]));
    img.put_pixel(2, 1, Rgb([200, 100, 50]));
    let r = decode_image(&png_bytes(&img)).unwrap();
    assert_eq!(r.width, 3);
    assert_eq!(r.height, 2);
    assert_eq!(r.data.len(), 18);
    assert_eq!(&r.data[0..3], &[10, 20, 30]);
    assert_eq!(&r.data[15..18], &[200, 100, 50]);
}

#[test]
fn solid_red_image_reports_one_color() {
    let img = RgbImage::from_pixel(1000, 1000, Rgb([255, 0, 0]));
    let out = detect_colors(&png_bytes(&img)).unwrap();
    assert_eq!(out.len(), 1);
    assert_eq!(out[0].name, "red");
    assert_eq!(out[0].color, "#FF0000");
    assert_eq!(out[0].pixel_count, 1_000_000);
    assert_eq!(out[0].display_name.as_deref(), Some("red"));
    assert_eq!(out[0].base, BaseColor::Red);
}

#[test]
fn pure_red_is_red() {
    let h = rgb_to_hsv(255, 0, 0);
    assert_eq!(h.hue_num, 0);
    assert_eq!(classify(255, 0, 0), vec![BaseColor::Red]);
}

#[test]
fn crimson_wraps_around_to_red() {
    let h = rgb_to_hsv(200, 20, 30);
    // H/2 = 32100 / 180 = 178.33 degrees on the half-hue axis
    assert_eq!(h.hue_num, 32100);
    assert_eq!(h.hue_den, 180);
    assert!(classify(200, 20, 30).contains(&BaseColor::Red));
    let ranges = get_color_ranges();
    assert!(color_matches_range(&h, &ranges[1]));
    assert!(!color_matches_range(&h, &ranges[0]));
}

#[test]
fn hsv_of_green_and_blue() {
    let g = rgb_to_hsv(0, 255, 0);
    assert_eq!((g.hue_num, g.hue_den), (60 * 255, 255));
    assert_eq!((g.sat_num, g.sat_den, g.value), (255 * 255, 255, 255));
    let b = rgb_to_hsv(0, 0, 255);
    assert_eq!((b.hue_num, b.hue_den), (120 * 255, 255));
    let grey = rgb_to_hsv(128, 128, 128);
    assert_eq!((grey.hue_num, grey.hue_den, grey.sat_num), (0, 1, 0));
    let black = rgb_to_hsv(0, 0, 0);
    assert_eq!((black.sat_num, black.sat_den, black.value), (0, 1, 0));
}

#[test]
fn white_and_grey_match_nothing() {
    assert!(classify(255, 255, 255).is_empty());
    assert!(classify(128, 128, 128).is_empty());
    assert!(classify(0, 0, 0).is_empty());
}

#[test]
fn tolerance_widens_saturation_bound() {
    // S*255 = 110: under 120 but above 120 * 0.88
    let h = rgb_to_hsv(255, 145, 145);
    let ranges = get_color_ranges();
    assert!(color_matches_range(&h, &ranges[0]));
    // S*255 = 100 is below 105.6
    let h2 = rgb_to_hsv(255, 155, 155);
    assert!(!color_matches_range(&h2, &ranges[0]));
}

#[test]
fn palette_keys_and_order() {
    let keys: Vec<&str> = (0..9).map(palette_key).collect();
    assert_eq!(
        keys,
        vec!["red", "red2", "blue", "green", "yellow", "cyan", "magenta", "orange", "purple"]
    );
    let ranges = get_color_ranges();
    assert_eq!(ranges.len(), 9);
    assert_eq!(ranges[1].lower_h, 165);
    assert_eq!(ranges[8].tolerance_pct, 15);
}

#[test]
fn counts_at_threshold_are_not_reported() {
    // 100 x 100 image: threshold max(1, 10000 / 2000) = 5
    let mut img = RgbImage::from_pixel(100, 100, Rgb([255, 255, 255]));
    for x in 0..5 {
        img.put_pixel(x, 50, Rgb([0, 200, 0]));
    }
    let out = detect_colors(&png_bytes(&img)).unwrap();
    assert!(out.is_empty());
    img.put_pixel(10, 50, Rgb([0, 200, 0]));
    let out = detect_colors(&png_bytes(&img)).unwrap();
    assert_eq!(out.len(), 1);
    assert_eq!(out[0].name, "green");
    assert_eq!(out[0].pixel_count, 6);
}

#[test]
fn tiny_image_needs_more_than_one_pixel() {
    let mut img = RgbImage::from_pixel(10, 10, Rgb([255, 255, 255]));
    img.put_pixel(3, 3, Rgb([0, 200, 0]));
    assert!(detect_colors(&png_bytes(&img)).unwrap().is_empty());
    img.put_pixel(4, 4, Rgb([0, 200, 0]));
    assert_eq!(detect_colors(&png_bytes(&img)).unwrap().len(), 1);
}

#[test]
fn detection_is_sorted_and_unique() {
    let mut img = RgbImage::from_pixel(200, 200, Rgb([255, 255, 255]));
    for y in 0..20 {
        for x in 0..200 {
            img.put_pixel(x, y, Rgb([255, 0, 0]));
        }
    }
    for y in 100..160 {
        for x in 0..200 {
            img.put_pixel(x, y, Rgb([0, 200, 0]));
        }
    }
    let out = detect_colors(&png_bytes(&img)).unwrap();
    let names: Vec<&str> = out.iter().map(|d| d.name.as_str()).collect();
    assert_eq!(names, vec!["green", "red"]);
    assert_eq!(out[0].pixel_count, 12000);
    assert_eq!(out[1].pixel_count, 4000);
    for i in 0..out.len() {
        for j in i + 1..out.len() {
            assert_ne!(out[i].name, out[j].name);
            assert!(out[i].pixel_count >= out[j].pixel_count);
        }
    }
}

#[test]
fn second_red_range_reports_red_once() {
    // crimson falls only in the second red range; pure red only in the first
    let mut img = RgbImage::from_pixel(100, 100, Rgb([255, 255, 255]));
    for x in 0..100 {
        img.put_pixel(x, 10, Rgb([200, 20, 30]));
        img.put_pixel(x, 20, Rgb([255, 0, 0]));
    }
    let out = detect_colors(&png_bytes(&img)).unwrap();
    let reds: Vec<_> = out.iter().filter(|d| d.name == "red").collect();
    assert_eq!(reds.len(), 1);
    assert_eq!(reds[0].pixel_count, 100);
}

#[test]
fn equal_counts_come_in_palette_order() {
    // pure blue falls in the blue and the purple ranges; green has as many pixels
    let mut img = RgbImage::from_pixel(100, 100, Rgb([255, 255, 255]));
    for x in 0..100 {
        img.put_pixel(x, 10, Rgb([0, 200, 0]));
        img.put_pixel(x, 20, Rgb([0, 0, 255]));
    }
    let out = detect_colors(&png_bytes(&img)).unwrap();
    let names: Vec<&str> = out.iter().map(|d| d.name.as_str()).collect();
    assert_eq!(names, vec!["blue", "green", "purple"]);
    assert!(out.iter().all(|d| d.pixel_count == 100));
}

#[test]
fn jpeg_images_decode() {
    let img = RgbImage::from_pixel(64, 48, Rgb([255, 0, 0]));
    let mut buf = Cursor::new(Vec::new());
    img.write_to(&mut buf, ImageFormat::Jpeg).unwrap();
    let bytes = buf.into_inner();
    let r = decode_image(&bytes).unwrap();
    assert_eq!((r.width, r.height, r.data.len()), (64, 48, 64 * 48 * 3));
    let out = detect_colors(&bytes).unwrap();
    assert_eq!(out[0].name, "red");
    assert_eq!(out[0].pixel_count, 64 * 48);
}
