use curve_extract::curve::{
    group_by_key, parse_scale_type, should_smooth, smoothing_window, window_bounds, ScaleType,
};
use curve_extract::extract::{extract_traces, name_selects_entry};
use curve_extract::palette::BaseColor;
use curve_extract::raster::CurveError;
use image::{ImageFormat, Rgb, RgbImage};
use std::io::Cursor;

fn png_bytes(img: &RgbImage) -> Vec<u8> {
    let mut buf = Cursor::new(Vec::new());
    img.write_to(&mut buf, ImageFormat::Png).unwrap();
    buf.into_inner()
}

fn band(img: &mut RgbImage, color: [u8; 3], x0: u32, x1: u32, y0: u32, y1: u32) {
    for y in y0..y1 {
        for x in x0..x1 {
            img.put_pixel(x, y, Rgb(color));
        }
    }
}

fn two_band_image() -> Vec<u8> {
    let mut img = RgbImage::from_pixel(1000, 1000, Rgb([255, 255, 255]));
    band(&mut img, [255, 0, 0], 400, 600, 490, 520);
    band(&mut img, [0, 0, 255], 100, 300, 240, 270);
    png_bytes(&img)
}

fn rows_of(mask: &[bool], w: usize) -> (usize, usize, usize) {
    let mut lo = usize::MAX;
    let mut hi = 0;
    let mut n = 0;
    for (i, &b) in mask.iter().enumerate() {
        if b {
            lo = lo.min(i / w);
            hi = hi.max(i / w);
            n += 1;
        }
    }
    (lo, hi, n)
}

fn names(v: &[&str]) -> Vec<String> {
    v.iter().map(|s| s.to_string()).collect()
}

#[test]
fn two_band_image_gives_two_traces() {
    let out = extract_traces(&two_band_image(), &names(&["red", "blue"])).unwrap();
    assert_eq!(out.width, 1000);
    assert_eq!(out.height, 1000);
    assert_eq!(out.palette_size, 9);
    assert_eq!(out.traces.len(), 2);
    assert_eq!(out.traces[0].base, BaseColor::Red);
    assert_eq!(out.traces[0].name, "red");
    assert_eq!(out.traces[0].color, "#FF0000");
    assert_eq!(rows_of(&out.traces[0].mask, 1000), (490, 519, 200 * 30));
    assert_eq!(out.traces[1].base, BaseColor::Blue);
    assert_eq!(out.traces[1].color, "#0000FF");
    assert_eq!(rows_of(&out.traces[1].mask, 1000), (240, 269, 200 * 30));
}

#[test]
fn traces_follow_the_fixed_base_order() {
    let out = extract_traces(&two_band_image(), &names(&["blue", "red"])).unwrap();
    let bases: Vec<BaseColor> = out.traces.iter().map(|t| t.base).collect();
    assert_eq!(bases, vec![BaseColor::Red, BaseColor::Blue]);
}

#[test]
fn names_are_case_insensitive() {
    let out = extract_traces(&two_band_image(), &names(&["RED"])).unwrap();
    assert_eq!(out.traces.len(), 1);
    assert_eq!(out.traces[0].base, BaseColor::Red);
}

#[test]
fn unknown_color_gives_no_trace() {
    let out = extract_traces(&two_band_image(), &names(&["teal"])).unwrap();
    assert!(out.traces.is_empty());
}

#[test]
fn selected_color_absent_from_image_gives_no_trace() {
    let out = extract_traces(&two_band_image(), &names(&["green"])).unwrap();
    assert!(out.traces.is_empty());
}

#[test]
fn full_width_line_fails_aspect_gate() {
    // a 5 px tall line across the image is far wider than ten times its height
    let mut img = RgbImage::from_pixel(1000, 1000, Rgb([255, 255, 255]));
    band(&mut img, [255, 0, 0], 0, 1000, 498, 503);
    let out = extract_traces(&png_bytes(&img), &names(&["red"])).unwrap();
    assert!(out.traces.is_empty());
}

#[test]
fn crimson_band_is_found_through_red() {
    let mut img = RgbImage::from_pixel(400, 400, Rgb([255, 255, 255]));
    band(&mut img, [200, 20, 30], 100, 300, 180, 220);
    let bytes = png_bytes(&img);
    let out = extract_traces(&bytes, &names(&["red"])).unwrap();
    assert_eq!(out.traces.len(), 1);
    assert_eq!(rows_of(&out.traces[0].mask, 400), (180, 219, 200 * 40));
    let out = extract_traces(&bytes, &names(&["red2"])).unwrap();
    assert_eq!(out.traces.len(), 1);
}

#[test]
fn extraction_rejects_bad_input() {
    assert!(matches!(extract_traces(&[], &names(&["red"])), Err(CurveError::EmptyInput)));
    assert!(matches!(
        extract_traces(&[0, 1, 2, 3], &names(&["red"])),
        Err(CurveError::InvalidImage(_))
    ));
}

#[test]
fn smoothing_windows() {
    assert_eq!(smoothing_window(BaseColor::Red, 10), 5);
    assert_eq!(smoothing_window(BaseColor::Red, 120), 12);
    assert_eq!(smoothing_window(BaseColor::Red, 1000), 25);
    assert_eq!(smoothing_window(BaseColor::Blue, 120), 10);
    assert_eq!(smoothing_window(BaseColor::Blue, 1000), 20);
    assert_eq!(smoothing_window(BaseColor::Green, 10), 3);
    assert_eq!(smoothing_window(BaseColor::Green, 150), 10);
    assert_eq!(smoothing_window(BaseColor::Purple, 1000), 15);
    assert!(!should_smooth(5, 5));
    assert!(should_smooth(6, 5));
}

#[test]
fn smoothing_window_bounds() {
    assert_eq!(window_bounds(0, 100, 5), (0, 3));
    assert_eq!(window_bounds(50, 100, 5), (48, 53));
    assert_eq!(window_bounds(99, 100, 5), (97, 100));
    assert_eq!(window_bounds(3, 4, 25), (0, 4));
}

#[test]
fn bins_group_equal_keys_in_key_order() {
    let bins = group_by_key(&vec![3, 1, 3, 2, 1, -4]);
    let got: Vec<(i64, Vec<usize>)> = bins.into_iter().map(|b| (b.key, b.members)).collect();
    assert_eq!(
        got,
        vec![(-4, vec![5]), (1, vec![1, 4]), (2, vec![3]), (3, vec![0, 2])]
    );
    assert!(group_by_key(&vec![]).is_empty());
}

#[test]
fn scale_types() {
    assert!(matches!(parse_scale_type("linear"), Ok(ScaleType::Linear)));
    assert!(matches!(parse_scale_type("log"), Ok(ScaleType::Log)));
    assert!(matches!(parse_scale_type("Log"), Err(CurveError::InvalidConfig(_))));
    assert!(matches!(parse_scale_type(""), Err(CurveError::InvalidConfig(_))));
}

#[test]
fn lowered_names_select_entries() {
    assert!(name_selects_entry("red", 0));
    assert!(name_selects_entry("red", 1));
    assert!(!name_selects_entry("red2", 0));
    assert!(name_selects_entry("red2", 1));
    assert!(name_selects_entry("blue", 2));
    assert!(!name_selects_entry("blue", 5));
    assert!(!name_selects_entry("RED", 0));
    assert!(!name_selects_entry("teal", 5));
    assert!(name_selects_entry("purple", 8));
}
