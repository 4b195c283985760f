use curve_extract::components::filter_connected_components;
use curve_extract::extract::min_component_size_for;
use curve_extract::morph::morphological_open;

fn rect(mask: &mut [bool], w: usize, x0: usize, x1: usize, y0: usize, y1: usize) {
    for y in y0..y1 {
        for x in x0..x1 {
            mask[y * w + x] = true;
        }
    }
}

fn count(mask: &[bool]) -> usize {
    mask.iter().filter(|&&b| b).count()
}

#[test]
fn opening_removes_isolated_pixels() {
    let (w, h) = (10, 10);
    let mut m = vec![false; w * h];
    m[5 * w + 5] = true;
    m[2 * w + 7] = true;
    let r = morphological_open(&m, w, h);
    assert_eq!(count(&r), 0);
}

#[test]
fn opening_keeps_a_solid_block() {
    let (w, h) = (10, 10);
    let mut m = vec![false; w * h];
    rect(&mut m, w, 2, 6, 3, 8);
    let r = morphological_open(&m, w, h);
    assert_eq!(r, m);
}

#[test]
fn opening_clears_the_border() {
    let (w, h) = (6, 5);
    let m = vec![true; w * h];
    let r = morphological_open(&m, w, h);
    for y in 0..h {
        for x in 0..w {
            let inside = x >= 1 && x + 1 < w && y >= 1 && y + 1 < h;
            assert_eq!(r[y * w + x], inside);
        }
    }
}

#[test]
fn opening_trims_thin_lines() {
    let (w, h) = (20, 20);
    let mut m = vec![false; w * h];
    rect(&mut m, w, 2, 18, 9, 11);
    let r = morphological_open(&m, w, h);
    assert_eq!(count(&r), 0);
}

#[test]
fn opening_of_tiny_grids() {
    assert_eq!(morphological_open(&vec![true], 1, 1), vec![false]);
    assert_eq!(morphological_open(&vec![true; 4], 2, 2), vec![false; 4]);
}

#[test]
fn vertical_line_fails_aspect_gate() {
    let (w, h) = (1000, 1000);
    let mut m = vec![false; w * h];
    rect(&mut m, w, 500, 501, 250, 750);
    let r = filter_connected_components(&m, w, h, 1);
    assert_eq!(count(&r), 0);
    let r = filter_connected_components(&m, w, h, min_component_size_for(w, h));
    assert_eq!(count(&r), 0);
}

#[test]
fn component_of_999_pixels_is_rejected() {
    let (w, h) = (100, 100);
    let mut m = vec![false; w * h];
    rect(&mut m, w, 10, 37, 10, 47);
    assert_eq!(count(&m), 999);
    let r = filter_connected_components(&m, w, h, 1000);
    assert_eq!(count(&r), 0);
}

#[test]
fn component_of_1000_pixels_is_kept() {
    let (w, h) = (100, 100);
    let mut m = vec![false; w * h];
    rect(&mut m, w, 10, 35, 10, 50);
    assert_eq!(count(&m), 1000);
    let r = filter_connected_components(&m, w, h, 1000);
    assert_eq!(r, m);
}

#[test]
fn diagonal_neighbours_join_one_component() {
    let (w, h) = (10, 10);
    let mut m = vec![false; w * h];
    for i in 0..6 {
        m[(i + 2) * w + i + 2] = true;
    }
    // 6 pixels, a 6 x 6 box
    let r = filter_connected_components(&m, w, h, 6);
    assert_eq!(r, m);
    let r = filter_connected_components(&m, w, h, 7);
    assert_eq!(count(&r), 0);
}

#[test]
fn components_are_gated_separately() {
    let (w, h) = (60, 60);
    let mut m = vec![false; w * h];
    rect(&mut m, w, 1, 11, 1, 11);
    rect(&mut m, w, 30, 33, 30, 33);
    let r = filter_connected_components(&m, w, h, 50);
    assert_eq!(count(&r), 100);
    assert!(r[1 * w + 1]);
    assert!(!r[30 * w + 30]);
}

#[test]
fn aspect_ratio_bounds_are_strict() {
    let (w, h) = (60, 60);
    // 10 wide and 1 tall: ratio exactly 10 is rejected
    let mut m = vec![false; w * h];
    rect(&mut m, w, 5, 15, 5, 6);
    assert_eq!(count(&filter_connected_components(&m, w, h, 1)), 0);
    // 9 wide and 1 tall: kept
    let mut m = vec![false; w * h];
    rect(&mut m, w, 5, 14, 5, 6);
    assert_eq!(count(&filter_connected_components(&m, w, h, 1)), 9);
    // 3 wide and 10 tall: ratio 0.3 is rejected; 4 wide kept
    let mut m = vec![false; w * h];
    rect(&mut m, w, 5, 8, 5, 15);
    assert_eq!(count(&filter_connected_components(&m, w, h, 1)), 0);
    let mut m = vec![false; w * h];
    rect(&mut m, w, 5, 9, 5, 15);
    assert_eq!(count(&filter_connected_components(&m, w, h, 1)), 40);
}

#[test]
fn minimum_component_size() {
    assert_eq!(min_component_size_for(1000, 1000), 1000);
    assert_eq!(min_component_size_for(10, 10), 1000);
    assert_eq!(min_component_size_for(2000, 1000), 2000);
}
