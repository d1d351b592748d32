use lightmapper::stilb::pack::{find_placement, place_charts, Bitmap};

fn bitmap_from(width: u32, height: u32, set: &[(u32, u32)]) -> Bitmap {
    let mut b = Bitmap::new(width, height);
    for &(x, y) in set {
        b.set_pixel(x, y);
    }
    b
}

fn full(width: u32, height: u32) -> Bitmap {
    let mut b = Bitmap::new(width, height);
    for y in 0..height {
        for x in 0..width {
            b.set_pixel(x, y);
        }
    }
    b
}

#[test]
fn new_bitmap_is_clear() {
    let b = Bitmap::new(70, 3);
    assert_eq!(b.width, 70);
    assert_eq!(b.height, 3);
    for y in 0..3 {
        for x in 0..70 {
            assert!(!b.get_pixel(x, y));
        }
    }
}

#[test]
fn set_then_get_reads_back_only_that_pixel() {
    let mut b = Bitmap::new(130, 4);
    b.set_pixel(65, 2);
    b.set_pixel(0, 0);
    b.set_pixel(129, 3);
    for y in 0..4 {
        for x in 0..130 {
            let expected = (x, y) == (65, 2) || (x, y) == (0, 0) || (x, y) == (129, 3);
            assert_eq!(b.get_pixel(x, y), expected, "pixel {} {}", x, y);
        }
    }
}

#[test]
fn set_pixel_outside_is_ignored() {
    let mut b = Bitmap::new(10, 10);
    b.set_pixel(10, 0);
    b.set_pixel(0, 10);
    b.set_pixel(u32::MAX, u32::MAX);
    for y in 0..10 {
        for x in 0..10 {
            assert!(!b.get_pixel(x, y));
        }
    }
    assert!(!b.get_pixel(10, 0));
}

#[test]
fn empty_bitmap_has_no_pixels() {
    let b = Bitmap::empty();
    assert_eq!(b.width, 0);
    assert_eq!(b.height, 0);
    assert!(!b.get_pixel(0, 0));
}

#[test]
fn overlaps_detects_shared_pixel_across_word_boundary() {
    let atlas = bitmap_from(200, 10, &[(100, 5)]);
    let chart = bitmap_from(3, 3, &[(2, 1)]);
    // chart pixel (2, 1) lands on (ox + 2, oy + 1)
    assert!(atlas.overlaps(&chart, 98, 4));
    assert!(!atlas.overlaps(&chart, 97, 4));
    assert!(!atlas.overlaps(&chart, 98, 3));
    // a shift that straddles two words
    let atlas2 = bitmap_from(200, 2, &[(64, 0)]);
    let wide = bitmap_from(70, 1, &[(3, 0)]);
    assert!(atlas2.overlaps(&wide, 61, 0));
    assert!(!atlas2.overlaps(&wide, 60, 0));
}

#[test]
fn overlaps_ignores_rows_below_the_atlas() {
    let atlas = full(8, 4);
    let chart = bitmap_from(1, 3, &[(0, 2)]);
    // the only set chart pixel would land on row 5
    assert!(!atlas.overlaps(&chart, 0, 3));
    assert!(atlas.overlaps(&chart, 0, 1));
}

#[test]
fn paint_sets_the_chart_pixels() {
    let mut atlas = Bitmap::new(100, 8);
    let chart = bitmap_from(5, 2, &[(0, 0), (4, 1)]);
    atlas.paint(&chart, 62, 3);
    for y in 0..8 {
        for x in 0..100 {
            let expected = (x, y) == (62, 3) || (x, y) == (66, 4);
            assert_eq!(atlas.get_pixel(x, y), expected, "pixel {} {}", x, y);
        }
    }
    // painting again with the same chart makes it overlap
    assert!(atlas.overlaps(&chart, 62, 3));
}

#[test]
fn find_placement_takes_the_first_free_position_in_row_order() {
    let mut atlas = Bitmap::new(4, 4);
    atlas.set_pixel(0, 0);
    atlas.set_pixel(1, 0);
    let chart = full(2, 2);
    assert_eq!(find_placement(&atlas, &chart, 0, 0), Some((2, 0)));
    // starting past the last usable column moves to the next row
    assert_eq!(find_placement(&atlas, &chart, 3, 0), Some((0, 1)));
    assert_eq!(find_placement(&atlas, &chart, 0, 3), None);
}

#[test]
fn find_placement_rejects_charts_larger_than_the_atlas() {
    let atlas = Bitmap::new(4, 4);
    assert_eq!(find_placement(&atlas, &full(5, 1), 0, 0), None);
    assert_eq!(find_placement(&atlas, &full(1, 5), 0, 0), None);
    assert_eq!(find_placement(&atlas, &full(4, 4), 0, 0), Some((0, 0)));
}

#[test]
fn find_placement_none_when_every_position_overlaps() {
    let atlas = full(6, 6);
    assert_eq!(find_placement(&atlas, &full(2, 2), 0, 0), None);
}

#[test]
fn place_charts_packs_without_overlap() {
    let charts = vec![full(4, 4), full(4, 4), full(4, 4), full(4, 4)];
    for brute in [true, false] {
        let (ps, atlas) = place_charts(&charts, 8, 8, brute).expect("four 4x4 charts fit in 8x8");
        assert_eq!(ps.len(), 4);
        let mut count = vec![vec![0; 8]; 8];
        for (p, c) in ps.iter().zip(charts.iter()) {
            assert!(p.0 + c.width <= 8 && p.1 + c.height <= 8);
            for y in 0..c.height {
                for x in 0..c.width {
                    count[(p.1 + y) as usize][(p.0 + x) as usize] += 1;
                }
            }
        }
        for y in 0..8 {
            for x in 0..8 {
                assert_eq!(count[y][x], 1);
                assert!(atlas.get_pixel(x as u32, y as u32));
            }
        }
    }
}

#[test]
fn place_charts_brute_force_and_cursor_positions() {
    let charts = vec![full(2, 1), full(2, 1), full(2, 1)];
    let (ps, _) = place_charts(&charts, 4, 2, true).unwrap();
    assert_eq!(ps, vec![(0, 0), (2, 0), (0, 1)]);
    let (ps, _) = place_charts(&charts, 4, 2, false).unwrap();
    assert_eq!(ps, vec![(0, 0), (2, 0), (0, 1)]);
}

#[test]
fn place_charts_gives_empty_charts_the_origin() {
    let charts = vec![Bitmap::empty(), full(2, 2), Bitmap::new(0, 3)];
    let (ps, atlas) = place_charts(&charts, 2, 2, true).unwrap();
    assert_eq!(ps, vec![(0, 0), (0, 0), (0, 0)]);
    assert!(atlas.get_pixel(1, 1));
}

#[test]
fn place_charts_fails_when_a_chart_does_not_fit() {
    let charts = vec![full(3, 3), full(2, 2)];
    assert!(place_charts(&charts, 4, 4, true).is_none());
    assert!(place_charts(&charts, 4, 4, false).is_none());
    let too_big = vec![full(5, 1)];
    assert!(place_charts(&too_big, 4, 4, true).is_none());
}

#[test]
fn place_charts_fills_holes_of_sparse_charts() {
    // an L-shaped chart leaves room for a single pixel in its corner
    let l_shape = bitmap_from(2, 2, &[(0, 0), (1, 0), (0, 1)]);
    let dot = full(1, 1);
    let (ps, atlas) = place_charts(&vec![l_shape, dot], 2, 2, true).unwrap();
    assert_eq!(ps, vec![(0, 0), (1, 1)]);
    for y in 0..2 {
        for x in 0..2 {
            assert!(atlas.get_pixel(x, y));
        }
    }
}
