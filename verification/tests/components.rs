//! Connected pixels.

use rust_onnx_infer::engines::components::{dilate_bitmap, find_connected_components, neighbors};

fn bitmap(rows: &[&str]) -> Vec<u8> {
    rows.iter().flat_map(|r| r.chars().map(|c| if c == '#' { 1 } else { 0 })).collect()
}

fn pixel_sets(rows: &[&str], connectivity8: bool) -> Vec<Vec<u32>> {
    let width = rows[0].len();
    let found = find_connected_components(&bitmap(rows), width, rows.len(), connectivity8);
    found
        .into_iter()
        .map(|c| {
            let mut pixels = c.pixels;
            pixels.sort();
            pixels
        })
        .collect()
}

#[test]
fn pixels_that_touch_are_together() {
    let rows = ["##..#", ".....", "#..##", ".#..."];
    assert_eq!(pixel_sets(&rows, false), vec![vec![0, 1], vec![4], vec![10], vec![13, 14], vec![16]]);
    assert_eq!(pixel_sets(&rows, true), vec![vec![0, 1], vec![4], vec![10, 16], vec![13, 14]]);
}

#[test]
fn components_have_bounds() {
    let found = find_connected_components(&bitmap(&["....", ".#..", "##..", "...#"]), 4, 4, true);
    assert_eq!(found.len(), 2);
    assert_eq!((found[0].min_x, found[0].min_y, found[0].max_x, found[0].max_y), (0, 1, 1, 2));
    assert_eq!((found[1].min_x, found[1].min_y, found[1].max_x, found[1].max_y), (3, 3, 3, 3));
}

#[test]
fn every_set_pixel_is_in_one_component() {
    let mut state: u32 = 99;
    let mut bits = Vec::new();
    for _ in 0..17 * 13 {
        state = state.wrapping_mul(1664525).wrapping_add(1013904223);
        bits.push(if (state >> 16) % 5 < 2 { 1u8 } else { 0 });
    }
    for connectivity8 in [false, true] {
        let mut owner = vec![0usize; bits.len()];
        let found = find_connected_components(&bits, 17, 13, connectivity8);
        for (k, c) in found.iter().enumerate() {
            for &p in &c.pixels {
                assert_eq!(owner[p as usize], 0, "one component each");
                owner[p as usize] = k + 1;
            }
        }
        for p in 0..bits.len() {
            assert_eq!(owner[p] > 0, bits[p] == 1);
            let (x, y) = (p % 17, p / 17);
            for n in neighbors(p, 17, x > 0, x < 16, y > 0, y < 12, connectivity8) {
                if bits[p] == 1 && bits[n] == 1 {
                    assert_eq!(owner[p], owner[n], "neighbours are together");
                }
            }
        }
    }
}

#[test]
fn nothing_is_connected_on_an_empty_map() {
    assert!(find_connected_components(&[], 0, 0, true).is_empty());
    assert!(find_connected_components(&[0, 0, 0, 0], 2, 2, true).is_empty());
    assert_eq!(find_connected_components(&[1, 1, 1, 1], 2, 2, false).len(), 1);
}

#[test]
fn neighbours_stay_inside() {
    let mut all = neighbors(4, 3, true, true, true, true, true);
    all.sort();
    assert_eq!(all, vec![0, 1, 2, 3, 5, 6, 7, 8]);
    let mut corner = neighbors(0, 3, false, true, false, true, false);
    corner.sort();
    assert_eq!(corner, vec![1, 3]);
}

#[test]
fn dilation_spreads_up_and_left() {
    let mut bits = bitmap(&["....", "..#.", "...."]);
    dilate_bitmap(&mut bits, 4, 3);
    assert_eq!(bits, bitmap(&[".##.", ".##.", "...."]));
    let mut bits = bitmap(&["#..", "...", "..#"]);
    let before = bits.clone();
    dilate_bitmap(&mut bits, 3, 3);
    assert!(before.iter().zip(bits.iter()).all(|(a, b)| a <= b));
}

#[test]
fn dilation_leaves_what_stands_behind() {
    let mut bits = vec![0, 1, 0, 0, 7, 0, 9];
    dilate_bitmap(&mut bits, 2, 2);
    assert_eq!(bits, vec![1, 1, 0, 0, 7, 0, 9]);
    let mut bits = vec![3, 4];
    dilate_bitmap(&mut bits, 0, 5);
    assert_eq!(bits, vec![3, 4]);
}
