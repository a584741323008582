use swiftmouse::bitmap::{Bitmap, Rgb};
use swiftmouse::draw::{draw_box, draw_boxes};
use swiftmouse::edges::{EdgeType, find_horizontal_lines, detect_edge_types, Direction};
use swiftmouse::segment::{
    drop_inside_text, drop_shared_side_duplicates, few_text_overlaps, find_candidate_boxes, keep_kinds,
    keep_wide, merge_fragments, split_by_height,
};
use swiftmouse::trim::trim_box;
use swiftmouse::wire::{decode_boxes, encode_boxes};

const WHITE: Rgb = Rgb { r: 255, g: 255, b: 255 };
const BLACK: Rgb = Rgb { r: 0, g: 0, b: 0 };

fn fill(bm: &mut Bitmap, x0: u32, y0: u32, x1: u32, y1: u32, c: Rgb) {
    for y in y0..y1 {
        for x in x0..x1 {
            bm.put_pixel(x, y, c);
        }
    }
}

/// Two horizontal and two vertical bars, two pixels thick, crossing like a
/// table cell.
fn table_cell() -> Bitmap {
    let mut bm = Bitmap::filled(200, 200, WHITE);
    fill(&mut bm, 30, 50, 170, 52, BLACK);
    fill(&mut bm, 30, 110, 170, 112, BLACK);
    fill(&mut bm, 50, 30, 52, 130, BLACK);
    fill(&mut bm, 150, 30, 152, 130, BLACK);
    bm
}

#[test]
fn bars_get_edge_types() {
    let bm = table_cell();
    let lines = find_horizontal_lines(&bm);
    let edges = detect_edge_types(&bm, &lines, Direction::Horizontal);
    assert_eq!(edges[50], vec![(30, 170, EdgeType::Before)]);
    assert_eq!(edges[51], vec![(30, 170, EdgeType::After)]);
    assert_eq!(edges[111], vec![(30, 170, EdgeType::After)]);
}

#[test]
fn crossing_bars_bound_a_candidate() {
    let bm = table_cell();
    let cands = find_candidate_boxes(&bm);
    assert!(cands.contains(&(50, 50, 151, 111)));
    for b in &cands {
        assert!(b.0 < b.2 && b.2 < 200 && b.1 < b.3 && b.3 < 200);
    }
    // the bars along the sides are flat padding; rows are judged over the full width
    assert_eq!(trim_box(&bm, (50, 50, 151, 111)), Some((52, 52, 150, 110)));
    let (_, regions) = swiftmouse::segment::find_bounding_boxes_v2(&bm);
    assert!(regions.contains(&(52, 52, 150, 110)));
}

#[test]
fn kinds_kept_per_direction() {
    let edges = vec![vec![(0, 50, EdgeType::Both), (0, 50, EdgeType::Before), (0, 50, EdgeType::Neither)]];
    assert_eq!(keep_kinds(&edges, false), vec![vec![(0, 50, EdgeType::Before)]]);
    assert_eq!(keep_kinds(&edges, true), vec![vec![(0, 50, EdgeType::Both), (0, 50, EdgeType::Before)]]);
}

#[test]
fn height_separates_fragments() {
    let (small, big) = split_by_height(&vec![(0, 0, 10, 35), (0, 0, 10, 36)]);
    assert_eq!(small, vec![(0, 0, 10, 35)]);
    assert_eq!(big, vec![(0, 0, 10, 36)]);
}

#[test]
fn fragments_merge_per_baseline() {
    let merged = merge_fragments(&vec![(10, 20, 20, 30), (23, 22, 40, 30), (100, 20, 110, 30), (10, 50, 20, 60)]);
    assert_eq!(merged, vec![(100, 20, 110, 30), (10, 20, 40, 30), (10, 50, 20, 60)]);
    // different baselines never merge
    let apart = merge_fragments(&vec![(10, 20, 20, 30), (21, 20, 30, 31)]);
    assert_eq!(apart, vec![(10, 20, 20, 30), (21, 20, 30, 31)]);
}

#[test]
fn region_filters() {
    let regions = vec![(0, 0, 100, 50), (0, 10, 100, 40), (0, 0, 60, 50), (200, 0, 205, 50)];
    assert_eq!(drop_shared_side_duplicates(&regions), vec![(0, 0, 100, 50), (200, 0, 205, 50)]);
    assert_eq!(keep_wide(&regions), vec![(0, 0, 100, 50), (0, 10, 100, 40), (0, 0, 60, 50)]);
    let texts = vec![(5, 5, 20, 15), (30, 5, 50, 15), (210, 0, 220, 10)];
    assert_eq!(few_text_overlaps(&regions, &texts), vec![(200, 0, 205, 50)]);
    assert_eq!(drop_inside_text(&vec![(6, 6, 10, 10), (0, 0, 30, 30)], &texts), vec![(0, 0, 30, 30)]);
}

#[test]
fn boxes_round_trip_on_the_wire() {
    let boxes = vec![(1, 2, 3, 4), (70000, 0, 4294967295, 256)];
    let bytes = encode_boxes(&boxes);
    assert_eq!(bytes.len(), 4 + 16 * 2);
    assert_eq!(&bytes[0..8], &[2, 0, 0, 0, 1, 0, 0, 0]);
    assert_eq!(&bytes[20..24], &[0x70, 0x11, 0x01, 0x00]);
    let mut stream = bytes.clone();
    stream.extend(encode_boxes(&vec![(5, 6, 7, 8)]));
    let (first, next) = decode_boxes(&stream, 0).unwrap();
    assert_eq!(first, boxes);
    let (second, end) = decode_boxes(&stream, next).unwrap();
    assert_eq!(second, vec![(5, 6, 7, 8)]);
    assert_eq!(end, stream.len());
    assert_eq!(decode_boxes(&stream, end), None);
    assert_eq!(decode_boxes(&bytes[..30].to_vec(), 0), None);
}

#[test]
fn outline_is_drawn_and_clipped() {
    let mut bm = Bitmap::filled(5, 5, WHITE);
    draw_box(&mut bm, 1, 1, 3, 3, BLACK);
    for y in 0..5u32 {
        for x in 0..5u32 {
            let on = (1..=3).contains(&x) && (1..=3).contains(&y) && (x == 1 || x == 3 || y == 1 || y == 3);
            assert_eq!(bm.get_pixel(x, y), if on { BLACK } else { WHITE });
        }
    }
    let mut clipped = Bitmap::filled(5, 5, WHITE);
    draw_boxes(&mut clipped, &[(3, 3, 10, 10), (0, 0, 0, 0)], BLACK);
    assert_eq!(clipped.get_pixel(3, 4), BLACK);
    assert_eq!(clipped.get_pixel(4, 4), WHITE);
    assert_eq!(clipped.get_pixel(4, 3), BLACK);
    assert_eq!(clipped.get_pixel(0, 0), BLACK);
    assert_eq!(clipped.get_pixel(1, 1), WHITE);
}

/// A one-line table cell: bars at rows 50-51 and 70-71 and at columns 50-51
/// and 150-151, with a block of alternating pixels inside.
fn framed_text() -> Bitmap {
    let mut bm = Bitmap::filled(200, 120, WHITE);
    fill(&mut bm, 30, 50, 170, 52, BLACK);
    fill(&mut bm, 30, 70, 170, 72, BLACK);
    fill(&mut bm, 50, 30, 52, 90, BLACK);
    fill(&mut bm, 150, 30, 152, 90, BLACK);
    for y in 58..64 {
        for x in 60..100 {
            bm.put_pixel(x, y, if (x + y) % 2 == 0 { BLACK } else { WHITE });
        }
    }
    bm
}

#[test]
fn framed_text_becomes_one_fragment_and_line() {
    let bm = framed_text();
    assert!(find_candidate_boxes(&bm).contains(&(50, 50, 151, 71)));
    let (fragments, regions) = swiftmouse::segment::find_bounding_boxes_v2(&bm);
    assert_eq!(fragments, vec![(60, 58, 100, 64)]);
    assert!(regions.is_empty());
    let seg = swiftmouse::segment::segment(&bm, &vec![false; 200 * 120]);
    assert_eq!(seg.lines, vec![(60, 58, 100, 64)]);
    assert!(seg.links.is_empty() && seg.big_boxes.is_empty());
}
