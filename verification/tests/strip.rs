use std::cmp::Ordering;

use piet_verified::strip::{make_strips, render_strips, StripColumn, Tile};

fn tile(path_id: u32, x: u16, y: u16, p0: u32, p1: u32) -> Tile {
    Tile { path_id, x, y, p0, p1 }
}

#[test]
fn tiles_order_by_path_then_row_then_column() {
    let a = tile(1, 5, 0, 0, 0);
    let b = tile(1, 0, 1, 0, 0);
    let c = tile(2, 0, 0, 0, 0);
    assert_eq!(a.cmp(&b), Ordering::Less);
    assert_eq!(b.cmp(&a), Ordering::Greater);
    assert_eq!(b.cmp(&c), Ordering::Less);
    // only the location counts, not the segment
    assert_eq!(a.cmp(&tile(1, 5, 0, 7, 9)), Ordering::Equal);
}

#[test]
fn one_tile_makes_a_strip() {
    // A segment going down at x = 1 pixel, starting on the tile's top edge.
    let t = tile(0, 0, 0, 8192, (32768 << 16) | 8192);
    let (tiles, strips, columns) = make_strips(vec![t]);
    assert_eq!(tiles.len(), 3);
    assert_eq!(tiles[1].path_id, 0xffff_fffe);
    assert_eq!(tiles[2].path_id, 0xffff_ffff);
    assert_eq!(strips.len(), 2);
    assert_eq!(strips[0].path_id, 0xffff_fffe);
    assert_eq!(strips[0].xy, 1);
    assert_eq!(strips[0].col, 0);
    assert_eq!(strips[0].winding, 0);
    assert_eq!(strips[1].path_id, 0xffff_ffff);
    assert_eq!(strips[1].xy, 0xfffc_fffc);
    assert_eq!(strips[1].col, 1);
    assert_eq!(
        columns,
        vec![
            StripColumn { seg_start: 0, seg_end: 1, x: 1, winding: 0 },
            StripColumn { seg_start: 1, seg_end: 2, x: 0, winding: 0 },
        ]
    );
}

#[test]
fn make_strips_sorts_its_tiles() {
    let a = tile(0, 1, 0, 8192, (32768 << 16) | 8192);
    let b = tile(0, 0, 0, 8192, (32768 << 16) | 8192);
    let (tiles, _, columns) = make_strips(vec![a, b]);
    assert_eq!((tiles[0].x, tiles[1].x), (0, 1));
    // the two tiles are neighbours: one strip, the winding carried over
    assert_eq!(columns[0], StripColumn { seg_start: 0, seg_end: 1, x: 1, winding: 0 });
    for w in columns.windows(2) {
        assert!(w[0].seg_end <= w[1].seg_start || w[0].seg_start == w[1].seg_start);
    }
}

#[test]
fn render_needs_only_sorted_rows() {
    let tiles = [
        tile(3, 2, 0, 0, 8192),
        tile(4, 0, 0, 0, 0),
    ];
    let (strips, columns) = render_strips(&tiles);
    assert_eq!(strips.len(), 1);
    assert_eq!(strips[0].path_id, 4);
    assert_eq!(strips[0].xy, 8);
    assert_eq!(columns.len(), 1);
}

#[test]
fn make_strips_keeps_tiles_at_one_location_in_order() {
    let first = tile(0, 2, 0, 8192, 1);
    let other = tile(0, 0, 0, 8192, 2);
    let second = tile(0, 2, 0, 8192, 3);
    let (tiles, _, _) = make_strips(vec![first, other, second]);
    assert_eq!((tiles[0].x, tiles[0].p1), (0, 2));
    assert_eq!((tiles[1].x, tiles[1].p1), (2, 1));
    assert_eq!((tiles[2].x, tiles[2].p1), (2, 3));
}

#[test]
fn synthetic_tile_gives_back_its_columns_and_winding() {
    // The tile that a location, the columns 1..3 and a winding change of -1
    // make: the segment starts one unit below the top edge at column 1 and
    // ends on the top edge at column 3.
    let lo = 1u32;
    let hi = 3u32;
    let synthetic = tile(0, 0, 0, 65536 + lo * 8192, hi * 8192);
    let next = tile(0, 4, 0, 8192, (32768 << 16) | 8192);
    let (_, strips, columns) = make_strips(vec![synthetic, next]);
    // its footprint is the columns 1..3
    assert_eq!(columns[0], StripColumn { seg_start: 0, seg_end: 1, x: 1, winding: 0 });
    assert_eq!(columns[1], StripColumn { seg_start: 0, seg_end: 1, x: 2, winding: 0 });
    // and it adds 1 to the winding number of the rest of the row
    assert_eq!(columns[2], StripColumn { seg_start: 1, seg_end: 2, x: 1, winding: 1 });
    assert_eq!(strips[1].winding, 1);
}
