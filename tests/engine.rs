use swiftmouse::bitmap::{Bitmap, Rgb};
use swiftmouse::boxes::{has_flat_border, validate_boxes};
use swiftmouse::coarse::{coarse_edge_map, get_pixel_gray, is_dense};
use swiftmouse::edges::{
    deduplicate_captured_edges, detect_edge_types, find_horizontal_lines, find_vertical_lines,
    Direction, EdgeType,
};
use swiftmouse::geometry::{boxes_overlap, filter_children, filter_parents, merge_boxes, unmap_downsampled_boxes};
use swiftmouse::lines::{assemble_lines, column_marks, find_links, link_spans};
use swiftmouse::segment::{classify_regions, find_bounding_boxes_v2, segment};
use swiftmouse::trim::{remove_box_padding, split_at_gaps, trim_box};

const WHITE: Rgb = Rgb { r: 255, g: 255, b: 255 };
const BLACK: Rgb = Rgb { r: 0, g: 0, b: 0 };
const RED: Rgb = Rgb { r: 200, g: 0, b: 0 };
const BLUE: Rgb = Rgb { r: 30, g: 60, b: 220 };

fn fill(bm: &mut Bitmap, x0: u32, y0: u32, x1: u32, y1: u32, c: Rgb) {
    for y in y0..y1 {
        for x in x0..x1 {
            bm.put_pixel(x, y, c);
        }
    }
}

fn checkerboard(bm: &mut Bitmap, x0: u32, y0: u32, x1: u32, y1: u32) {
    for y in y0..y1 {
        for x in x0..x1 {
            bm.put_pixel(x, y, if (x + y) % 2 == 0 { BLACK } else { WHITE });
        }
    }
}

fn assert_bounded(boxes: &[(u32, u32, u32, u32)], w: u32, h: u32) {
    for b in boxes {
        assert!(b.0 < b.2 && b.2 <= w, "{:?}", b);
        assert!(b.1 < b.3 && b.3 <= h, "{:?}", b);
    }
}

#[test]
fn bitmap_from_bytes_checks_length() {
    assert!(Bitmap::from_rgb_bytes(2, 1, &vec![1, 2, 3, 4, 5]).is_none());
    let bm = Bitmap::from_rgb_bytes(2, 1, &vec![1, 2, 3, 4, 5, 6]).unwrap();
    assert_eq!(bm.get_pixel(1, 0), Rgb { r: 4, g: 5, b: 6 });
    assert!(Bitmap::new(2, 2, vec![WHITE; 3]).is_none());
    assert!(Bitmap::new(2, 2, vec![WHITE; 4]).is_some());
}

#[test]
fn horizontal_runs_are_maximal_and_long() {
    let mut bm = Bitmap::filled(100, 3, RED);
    fill(&mut bm, 50, 0, 100, 1, BLUE);
    fill(&mut bm, 0, 2, 30, 3, BLUE);
    let lines = find_horizontal_lines(&bm);
    assert_eq!(lines.len(), 3);
    assert_eq!(lines[0], vec![(0, 50), (50, 100)]);
    assert_eq!(lines[1], vec![(0, 100)]);
    // the first run is only 30 long
    assert_eq!(lines[2], vec![(30, 100)]);
}

#[test]
fn vertical_runs_use_their_own_minimum() {
    let mut bm = Bitmap::filled(2, 30, WHITE);
    fill(&mut bm, 1, 0, 2, 10, BLACK);
    let cols = find_vertical_lines(&bm);
    assert_eq!(cols[0], vec![(0, 30)]);
    // runs of 10 and 20 are not longer than 20
    assert_eq!(cols[1], Vec::<(u32, u32)>::new());
}

#[test]
fn empty_image_has_no_runs() {
    let bm = Bitmap::filled(0, 0, WHITE);
    assert!(find_horizontal_lines(&bm).is_empty());
    assert!(find_vertical_lines(&bm).is_empty());
    let (frags, regions) = find_bounding_boxes_v2(&bm);
    assert!(frags.is_empty() && regions.is_empty());
}

#[test]
fn edge_types_mark_the_differing_side() {
    let mut bm = Bitmap::filled(50, 3, BLACK);
    fill(&mut bm, 0, 0, 50, 1, WHITE);
    let lines = find_horizontal_lines(&bm);
    let edges = detect_edge_types(&bm, &lines, Direction::Horizontal);
    assert_eq!(edges[0], vec![(0, 50, EdgeType::After)]);
    assert_eq!(edges[1], vec![(0, 50, EdgeType::Before)]);
    assert_eq!(edges[2], vec![(0, 50, EdgeType::Neither)]);
}

#[test]
fn edge_types_tolerate_few_mismatches() {
    // one differing interior pixel is within the tolerance of 1
    let mut bm = Bitmap::filled(50, 2, BLACK);
    bm.put_pixel(10, 0, WHITE);
    let lines = find_horizontal_lines(&bm);
    let edges = detect_edge_types(&bm, &lines, Direction::Horizontal);
    assert_eq!(edges[1], vec![(0, 50, EdgeType::Neither)]);
    // a run longer than 100 tolerates 4
    let mut wide = Bitmap::filled(120, 2, BLACK);
    for x in 10..14 {
        wide.put_pixel(x, 0, WHITE);
    }
    let wl = find_horizontal_lines(&wide);
    let we = detect_edge_types(&wide, &wl, Direction::Horizontal);
    assert_eq!(we[1], vec![(0, 120, EdgeType::Neither)]);
    wide.put_pixel(20, 0, WHITE);
    let wl = find_horizontal_lines(&wide);
    let we = detect_edge_types(&wide, &wl, Direction::Horizontal);
    assert_eq!(we[1], vec![(0, 120, EdgeType::Before)]);
}

#[test]
fn dedup_drops_spanned_repeats() {
    let edges = vec![
        vec![(0, 50, EdgeType::Before)],
        vec![(10, 40, EdgeType::Before)],
        vec![(0, 50, EdgeType::After)],
        vec![(5, 45, EdgeType::After)],
        vec![],
    ];
    let d = deduplicate_captured_edges(&edges);
    assert_eq!(d[0], vec![(0, 50, EdgeType::Before)]);
    assert_eq!(d[1], Vec::new());
    // the After edge on the next line does not span it
    assert_eq!(d[2], vec![(0, 50, EdgeType::After)]);
    assert_eq!(d[3], vec![(5, 45, EdgeType::After)]);
    assert_eq!(d[4], Vec::new());
}

#[test]
fn dedup_applies_to_every_line() {
    // the last line has no exception: spanned by a Before edge one line up
    let edges = vec![vec![(0, 50, EdgeType::Before)], vec![(10, 40, EdgeType::Before)]];
    assert_eq!(deduplicate_captured_edges(&edges)[1], Vec::new());
    // nor has the first: spanned by an After edge on the next line
    let edges = vec![vec![(10, 40, EdgeType::After)], vec![(0, 50, EdgeType::After)]];
    assert_eq!(deduplicate_captured_edges(&edges)[0], Vec::new());
    // Both and Neither edges are never repeats
    let edges = vec![vec![(10, 40, EdgeType::Both), (10, 40, EdgeType::Neither)], vec![(0, 50, EdgeType::After)]];
    assert_eq!(deduplicate_captured_edges(&edges)[0], vec![(10, 40, EdgeType::Both), (10, 40, EdgeType::Neither)]);
}

#[test]
fn dedup_window_is_eight_lines() {
    let mut edges = vec![vec![(0, 50, EdgeType::Before)]];
    for _ in 0..8 {
        edges.push(vec![]);
    }
    edges.push(vec![(10, 40, EdgeType::Before)]);
    edges.push(vec![]);
    let d = deduplicate_captured_edges(&edges);
    // line 9 is nine lines after line 0: out of the window
    assert_eq!(d[9], vec![(10, 40, EdgeType::Before)]);
    edges.remove(1);
    let d = deduplicate_captured_edges(&edges);
    assert_eq!(d[8], Vec::new());
}

#[test]
fn overlap_is_strict() {
    assert!(boxes_overlap(&(0, 0, 10, 10), &(5, 5, 15, 15)));
    assert!(!boxes_overlap(&(0, 0, 10, 10), &(10, 0, 20, 10)));
}

#[test]
fn merge_joins_near_boxes() {
    let merged = merge_boxes(vec![(0, 0, 10, 10), (12, 0, 20, 10), (100, 100, 110, 110)], 5, 0);
    assert_eq!(merged.len(), 2);
    assert!(merged.contains(&(0, 0, 20, 10)));
    assert!(merged.contains(&(100, 100, 110, 110)));
    let far = merge_boxes(vec![(0, 0, 10, 10), (21, 0, 30, 10)], 5, 0);
    assert_eq!(far, vec![(0, 0, 10, 10), (21, 0, 30, 10)]);
}

#[test]
fn second_padding_widens_across_only() {
    // 2px apart on one row: within x padding 1 plus y padding 5
    assert_eq!(merge_boxes(vec![(0, 0, 10, 10), (12, 0, 20, 10)], 1, 5), vec![(0, 0, 20, 10)]);
    // stacked 2px apart without shared rows: never merged
    assert_eq!(merge_boxes(vec![(0, 0, 10, 10), (0, 12, 10, 20)], 1, 5), vec![(0, 0, 10, 10), (0, 12, 10, 20)]);
}

#[test]
fn merge_chains_to_a_fixpoint() {
    let merged = merge_boxes(vec![(0, 0, 10, 10), (30, 0, 40, 10), (14, 0, 26, 10)], 5, 0);
    assert_eq!(merged, vec![(0, 0, 40, 10)]);
}

#[test]
fn merging_twice_changes_nothing() {
    let input = vec![(0, 0, 10, 10), (12, 0, 20, 10), (50, 0, 60, 10), (63, 2, 70, 8), (200, 0, 210, 5)];
    let once = merge_boxes(input, 5, 0);
    let twice = merge_boxes(once.clone(), 5, 0);
    assert_eq!(once, twice);
    let big = merge_boxes(vec![(0, 0, 50, 50), (50, 0, 90, 50)], 1, 0);
    assert_eq!(merge_boxes(big.clone(), 1, 0), big);
}

#[test]
fn containment_filters() {
    let boxes = vec![(0, 0, 10, 10), (2, 2, 5, 5), (20, 20, 30, 30)];
    assert_eq!(filter_children(boxes.clone()), vec![(0, 0, 10, 10), (20, 20, 30, 30)]);
    assert_eq!(filter_parents(boxes), vec![(2, 2, 5, 5), (20, 20, 30, 30)]);
}

#[test]
fn no_survivor_contains_another() {
    let boxes = vec![(0, 0, 10, 10), (2, 2, 5, 5), (1, 1, 9, 9), (0, 0, 10, 10), (40, 0, 50, 10)];
    let kept = filter_children(boxes);
    for a in &kept {
        for b in &kept {
            let inside = a.0 <= b.0 && a.1 <= b.1 && b.2 <= a.2 && b.3 <= a.3;
            assert!(!(inside && a != b));
        }
    }
    assert_eq!(kept, vec![(0, 0, 10, 10), (0, 0, 10, 10), (40, 0, 50, 10)]);
}

#[test]
fn unmap_doubles_coordinates() {
    assert_eq!(unmap_downsampled_boxes(&vec![(1, 2, 3, 4), (0, 0, 5, 5)]), vec![(2, 4, 6, 8), (0, 0, 10, 10)]);
}

#[test]
fn trim_removes_flat_padding() {
    let mut bm = Bitmap::filled(20, 20, WHITE);
    checkerboard(&mut bm, 5, 6, 10, 12);
    let t = trim_box(&bm, (0, 0, 20, 20)).unwrap();
    assert_eq!(t, (5, 6, 10, 12));
    assert!(trim_box(&bm, (12, 0, 20, 20)).is_none());
    assert_eq!(remove_box_padding(&bm, vec![(12, 0, 20, 20), (0, 0, 20, 20), (3, 4, 11, 14)]), vec![(5, 6, 10, 12), (5, 6, 10, 12)]);
}

#[test]
fn trimmed_box_lies_in_its_box() {
    let mut bm = Bitmap::filled(40, 30, WHITE);
    checkerboard(&mut bm, 3, 2, 17, 9);
    checkerboard(&mut bm, 20, 15, 33, 28);
    for b in [(0, 0, 40, 30), (1, 1, 25, 20), (10, 5, 39, 29), (4, 3, 16, 8)] {
        if let Some(t) = trim_box(&bm, b) {
            assert!(t.0 >= b.0 && t.1 >= b.1 && t.2 <= b.2 && t.3 <= b.3);
            assert!(t.0 < t.2 && t.1 < t.3);
        }
    }
    assert_eq!(trim_box(&bm, (4, 3, 16, 8)), Some((4, 3, 16, 8)));
}

#[test]
fn gaps_split_text_boxes() {
    let mut bm = Bitmap::filled(60, 10, WHITE);
    for x in 0..10 {
        bm.put_pixel(x, 5, BLACK);
    }
    for x in 30..40 {
        bm.put_pixel(x, 5, BLACK);
    }
    assert_eq!(split_at_gaps(&bm, (0, 0, 60, 10)), vec![(0, 0, 20, 10), (30, 0, 50, 10)]);
    // a gap of ten flat columns does not split
    let mut narrow = Bitmap::filled(30, 10, WHITE);
    for x in 0..10 {
        narrow.put_pixel(x, 5, BLACK);
    }
    for x in 20..30 {
        narrow.put_pixel(x, 5, BLACK);
    }
    assert_eq!(split_at_gaps(&narrow, (0, 0, 30, 10)), vec![(0, 0, 30, 10)]);
}

#[test]
fn flat_borders_are_rejected() {
    let bm = Bitmap::filled(100, 100, WHITE);
    assert!(has_flat_border(&bm, (10, 10, 90, 90)));
    assert_eq!(validate_boxes(&bm, &vec![(10, 10, 90, 90)]), Vec::new());
    let mut textured = Bitmap::filled(100, 100, WHITE);
    checkerboard(&mut textured, 0, 0, 100, 100);
    assert!(!has_flat_border(&textured, (10, 10, 90, 90)));
    assert_eq!(validate_boxes(&textured, &vec![(10, 10, 90, 90)]), vec![(10, 10, 90, 90)]);
}

#[test]
fn one_flat_side_is_enough_to_reject() {
    let mut bm = Bitmap::filled(100, 100, WHITE);
    checkerboard(&mut bm, 0, 0, 100, 100);
    // the left strip along the middle row becomes uniform
    fill(&mut bm, 10, 45, 50, 55, RED);
    assert!(has_flat_border(&bm, (10, 10, 90, 90)));
}

#[test]
fn single_fragment_makes_one_line() {
    assert_eq!(assemble_lines(&vec![(40, 45, 60, 55)]), vec![(40, 45, 60, 55)]);
    assert_eq!(assemble_lines(&vec![]), Vec::<(u32, u32, u32, u32)>::new());
}

#[test]
fn close_fragments_share_a_line() {
    let lines = assemble_lines(&vec![(10, 20, 50, 30), (53, 20, 90, 30)]);
    assert_eq!(lines, vec![(10, 20, 90, 30)]);
}

#[test]
fn distant_fragments_make_two_lines() {
    let lines = assemble_lines(&vec![(10, 20, 50, 30), (70, 20, 90, 30)]);
    assert_eq!(lines, vec![(10, 20, 50, 30), (70, 20, 90, 30)]);
}

#[test]
fn misaligned_fragments_make_two_lines() {
    let lines = assemble_lines(&vec![(10, 20, 50, 30), (52, 24, 90, 34)]);
    assert_eq!(lines, vec![(10, 20, 50, 30), (52, 24, 90, 34)]);
    let chained = assemble_lines(&vec![(10, 20, 50, 30), (52, 22, 70, 30), (72, 21, 90, 31)]);
    assert_eq!(chained, vec![(10, 20, 90, 31)]);
}

#[test]
fn large_block_is_a_large_image() {
    let mut bm = Bitmap::filled(1000, 1000, WHITE);
    fill(&mut bm, 50, 50, 450, 450, RED);
    checkerboard(&mut bm, 500, 60, 560, 72);
    let map = coarse_edge_map(&bm);
    let (plain, small, large) = classify_regions(&vec![(50, 50, 450, 450)], &map, &bm);
    assert_eq!(large, vec![(50, 50, 450, 450)]);
    assert!(small.is_empty() && plain.is_empty());
    // touching the margin: not large, and too sparse to be a small image
    let (plain, small, large) = classify_regions(&vec![(5, 50, 405, 450)], &map, &bm);
    assert!(large.is_empty() && small.is_empty());
    assert_eq!(plain, vec![(5, 50, 405, 450)]);
}

#[test]
fn dense_regions_are_small_images() {
    let mut bm = Bitmap::filled(100, 100, WHITE);
    checkerboard(&mut bm, 0, 0, 100, 100);
    let map = coarse_edge_map(&bm);
    let (plain, small, large) = classify_regions(&vec![(10, 10, 60, 60)], &map, &bm);
    assert_eq!(small, vec![(10, 10, 60, 60)]);
    assert!(plain.is_empty() && large.is_empty());
    // left half alternating, right half white: cells 0..3 across are foreground
    let mut half = Bitmap::filled(8, 8, WHITE);
    checkerboard(&mut half, 0, 0, 4, 8);
    let hmap = coarse_edge_map(&half);
    assert!(is_dense(&hmap, &half, (0, 0, 4, 8)));
    // exactly half is not more than half
    assert!(!is_dense(&hmap, &half, (4, 0, 8, 8)));
    assert!(!is_dense(&hmap, &half, (6, 0, 8, 8)));
}

#[test]
fn long_link_span_yields_a_link() {
    let mut marks = vec![false; 200];
    for m in marks.iter_mut().skip(20).take(60) {
        *m = true;
    }
    assert_eq!(link_spans((100, 10, 300, 30), &marks), vec![(120, 10, 180, 30)]);
}

#[test]
fn short_link_span_yields_none() {
    let mut marks = vec![false; 200];
    for m in marks.iter_mut().skip(20).take(30) {
        *m = true;
    }
    assert_eq!(link_spans((100, 10, 300, 30), &marks), Vec::new());
}

#[test]
fn link_gaps_up_to_fifteen_are_bridged() {
    let mut marks = vec![false; 200];
    for i in (0..30).chain(45..75) {
        marks[i] = true;
    }
    assert_eq!(link_spans((0, 0, 200, 10), &marks), vec![(0, 0, 75, 10)]);
    let mut split = vec![false; 200];
    for i in (0..30).chain(46..76) {
        split[i] = true;
    }
    assert_eq!(link_spans((0, 0, 200, 10), &split), Vec::new());
}

#[test]
fn links_come_from_the_pixel_mask() {
    let (w, h) = (200u32, 40u32);
    let mut mask = vec![false; (w * h) as usize];
    for x in 20..80u32 {
        mask[(15 * w + x) as usize] = true;
    }
    let marks = column_marks(&mask, w, h, (10, 10, 110, 20));
    assert_eq!(marks.len(), 100);
    assert!(marks[10] && marks[69] && !marks[9] && !marks[70]);
    let links = find_links(&vec![(10, 10, 110, 20), (0, 25, 200, 35)], &mask, w, h);
    assert_eq!(links, vec![(20, 10, 80, 20)]);
}

#[test]
fn gray_is_clamped_into_the_image() {
    let mut bm = Bitmap::filled(4, 4, BLACK);
    bm.put_pixel(0, 0, Rgb { r: 10, g: 20, b: 30 });
    assert_eq!(get_pixel_gray(&bm, -5, -5), 60);
    assert_eq!(get_pixel_gray(&bm, 9, 9), 0);
}

#[test]
fn coarse_map_marks_bright_spots() {
    let flat = Bitmap::filled(8, 6, WHITE);
    let map = coarse_edge_map(&flat);
    assert_eq!(map.len(), 3);
    assert!(map.iter().all(|row| row.len() == 4 && row.iter().all(|c| !c)));
    let mut spot = Bitmap::filled(8, 6, BLACK);
    spot.put_pixel(5, 3, WHITE);
    let map = coarse_edge_map(&spot);
    assert!(map[1][2]);
    assert!(!map[0][0]);
}

#[test]
fn every_box_lies_in_the_image() {
    let (w, h) = (320u32, 200u32);
    let mut bm = Bitmap::filled(w, h, WHITE);
    checkerboard(&mut bm, 20, 20, 140, 60);
    fill(&mut bm, 160, 20, 300, 180, BLUE);
    checkerboard(&mut bm, 170, 30, 290, 170);
    fill(&mut bm, 20, 100, 140, 112, RED);
    let (frags, regions) = find_bounding_boxes_v2(&bm);
    assert_bounded(&frags, w, h);
    assert_bounded(&regions, w, h);
    let mask = vec![false; (w * h) as usize];
    let seg = segment(&bm, &mask);
    for list in [&seg.fragments, &seg.lines, &seg.big_boxes, &seg.small_images, &seg.large_images, &seg.links] {
        assert_bounded(list, w, h);
    }
    assert!(seg.links.is_empty());
}

#[test]
fn solid_rectangle_has_no_crossing_edges() {
    // a 20x10 rectangle: its own rows and columns are shorter than the run
    // minimums, and the background runs around it never cross strictly
    let mut bm = Bitmap::filled(100, 100, WHITE);
    fill(&mut bm, 40, 45, 60, 55, BLACK);
    assert!(swiftmouse::segment::find_candidate_boxes(&bm).is_empty());
    let (frags, regions) = find_bounding_boxes_v2(&bm);
    assert!(frags.is_empty() && regions.is_empty());
}

#[test]
fn uniform_block_is_not_bounded_by_its_own_edges() {
    // the block's border runs meet only at corners, which do not count as
    // crossings, so no region is built from them
    let mut bm = Bitmap::filled(1000, 1000, WHITE);
    fill(&mut bm, 300, 300, 700, 700, RED);
    checkerboard(&mut bm, 100, 200, 200, 210);
    checkerboard(&mut bm, 800, 500, 900, 510);
    let seg = segment(&bm, &vec![false; 1000 * 1000]);
    assert!(!seg.regions.contains(&(300, 300, 700, 700)));
    assert!(seg.links.is_empty());
    assert_bounded(&seg.regions, 1000, 1000);
}
