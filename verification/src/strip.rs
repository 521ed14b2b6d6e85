//! Sparse strip rendering.
//!
//! Tiles are 4x4 pixel cells crossed by a path segment. Sorted by path and
//! position, consecutive tiles at the same location form a segment; runs of
//! horizontally adjacent segments form a strip. Each strip covers a range of
//! pixel columns whose coverage values are computed from the segment's tiles.

use vstd::prelude::*;
use vstd::std_specs::bits::*;
use vstd::seq_lib::{to_multiset_contains, to_multiset_len};
use core::cmp::Ordering;

verus! {

/// Position of a tile: the path it belongs to and its tile coordinates.
#[derive(Clone, Copy, PartialEq, Eq, Structural)]
struct Loc {
    path_id: u32,
    x: u16,
    y: u16,
}

/// Bit mask of the pixel columns of a tile that a segment touches.
struct Footprint(u32);

/// A tile crossed by a line segment.
///
/// `p0` and `p1` are the segment's end points packed as fixed point numbers:
/// the low 16 bits hold x and the high 16 bits hold y, both in units of
/// 1/8192 pixel relative to the tile's corner.
#[derive(Clone, Copy)]
pub struct Tile {
    pub path_id: u32,
    pub x: u16,
    pub y: u16,
    pub p0: u32,
    pub p1: u32,
}

/// A horizontal run of pixel columns that receive coverage values.
#[derive(Debug, Clone, Copy)]
pub struct Strip {
    pub path_id: u32,
    pub xy: u32,
    pub col: u32,
    pub winding: i32,
}

/// One pixel column of a strip whose four coverage values still have to be
/// computed: from the tiles `seg_start..seg_end`, at column `x` of the tile
/// (0..8, relative to the first tile of the pair), starting from winding
/// number `winding`.
#[derive(Debug, Clone, Copy, PartialEq, Eq, Structural)]
pub struct StripColumn {
    pub seg_start: usize,
    pub seg_end: usize,
    pub x: u32,
    pub winding: i32,
}

/// The x coordinate of a packed point, in units of 1/8192 pixel.
pub open spec fn fixed_x(p: u32) -> u32 {
    p & 0xffff
}

/// First pixel column touched by the tile's segment.
pub open spec fn footprint_min(t: Tile) -> u32 {
    let a = fixed_x(t.p0);
    let b = fixed_x(t.p1);
    (if a < b { a } else { b }) >> 13
}

/// One past the last pixel column touched by the tile's segment.
pub open spec fn footprint_max(t: Tile) -> u32 {
    let a = fixed_x(t.p0);
    let b = fixed_x(t.p1);
    let hi = if a < b { b } else { a };
    let ceil = ((hi + 8191) as u32) >> 13;
    let xmin = footprint_min(t);
    if ((xmin + 1) as u32) > ceil { (xmin + 1) as u32 } else { ceil }
}

/// Mask of the pixel columns `footprint_min(t)..footprint_max(t)`.
pub open spec fn footprint_of(t: Tile) -> u32 {
    ((1u32 << footprint_max(t)) - (1u32 << footprint_min(t))) as u32
}

/// Change of winding number contributed by a tile: +1 when the segment
/// ends on the tile's top edge, -1 when it starts there.
pub open spec fn tile_delta(t: Tile) -> int {
    (if t.p1 >> 16 == 0 { 1int } else { 0int }) - (if t.p0 >> 16 == 0 { 1int } else { 0int })
}

/// Row-major position key of a tile within its path.
pub open spec fn loc_key(t: Tile) -> int {
    t.y * 65536 + t.x
}

/// Tiles are ordered by path, then by row, then by column.
pub open spec fn key_less(a: Tile, b: Tile) -> bool {
    ||| a.path_id < b.path_id
    ||| (a.path_id == b.path_id && loc_key(a) < loc_key(b))
}

/// The ordering `Tile::cmp` computes.
pub open spec fn tile_order(a: Tile, b: Tile) -> Ordering {
    if key_less(a, b) {
        Ordering::Less
    } else if key_less(b, a) {
        Ordering::Greater
    } else {
        Ordering::Equal
    }
}

pub open spec fn same_loc(a: Tile, b: Tile) -> bool {
    a.path_id == b.path_id && a.x == b.x && a.y == b.y
}

pub open spec fn same_row(a: Tile, b: Tile) -> bool {
    a.path_id == b.path_id && a.y == b.y
}

/// Tile `b` directly follows `a` within the same strip.
pub open spec fn same_strip(a: Tile, b: Tile) -> bool {
    same_row(a, b) && (b.x - a.x) / 2 == 0
}

proof fn lemma_footprint_bits(a: u32, b: u32)
    ensures
        (a & 0xffff) <= 0xffff,
        ((a & 0xffff) >> 13) <= 7,
        (((b & 0xffff) + 8191) as u32) >> 13 <= 8,
        (((b & 0xffff) + 8191) as u32) >> 13 >= (b & 0xffff) >> 13,
{
    assert((a & 0xffff) <= 0xffff) by (bit_vector);
    assert(((a & 0xffff) >> 13) <= 7) by (bit_vector);
    assert((((b & 0xffff) + 8191) as u32) >> 13 <= 8) by (bit_vector);
    assert((((b & 0xffff) + 8191) as u32) >> 13 >= (b & 0xffff) >> 13) by (bit_vector);
}

proof fn lemma_mask_range(lo: u32, hi: u32)
    requires
        lo < hi <= 8,
    ensures
        0 < (((1u32 << hi) - (1u32 << lo)) as u32) < 256,
        (1u32 << lo) < (1u32 << hi),
{
    assert(lo < hi <= 8 ==> (1u32 << lo) < (1u32 << hi)) by (bit_vector);
    assert(lo < hi <= 8 ==> 0 < (((1u32 << hi) - (1u32 << lo)) as u32) < 256) by (bit_vector);
}

/// The footprint of every tile is a non-empty mask of the columns 0..8.
pub proof fn lemma_footprint_range(t: Tile)
    ensures
        footprint_min(t) < footprint_max(t) <= 8,
        0 < footprint_of(t) < 256,
{
    lemma_footprint_bits(t.p0, t.p1);
    lemma_footprint_bits(t.p1, t.p0);
    lemma_footprint_bits(t.p0, t.p0);
    lemma_footprint_bits(t.p1, t.p1);
    lemma_mask_range(footprint_min(t), footprint_max(t));
}

impl Loc {
    fn same_strip(&self, other: &Self) -> (r: bool)
        requires
            self.path_id == other.path_id && self.y == other.y ==> self.x <= other.x,
        ensures
            r == (self.path_id == other.path_id && self.y == other.y && (other.x - self.x) / 2
                == 0),
    {
        self.same_row(other) && (other.x - self.x) / 2 == 0
    }

    fn same_row(&self, other: &Self) -> (r: bool)
        ensures
            r == (self.path_id == other.path_id && self.y == other.y),
    {
        self.path_id == other.path_id && self.y == other.y
    }
}

impl Tile {
    /// Create a tile from synthetic data: a segment that spans the columns
    /// of `footprint` and that starts (`delta == -1`) or ends (`delta == 1`)
    /// on the tile's top edge.
    #[allow(unused)]
    fn new(loc: Loc, footprint: Footprint, delta: i32) -> (t: Tile)
        ensures
            t == synthetic_tile(loc.path_id, loc.x, loc.y, footprint.0, delta),
    {
        proof {
            axiom_u32_trailing_zeros(footprint.0);
            axiom_u32_leading_zeros(footprint.0);
        }
        let p0 = (if delta == -1 { 65536u32 } else { 0u32 }) + footprint.0.trailing_zeros() * 8192;
        let p1 = (if delta == 1 { 65536u32 } else { 0u32 }) + (32 - footprint.0.leading_zeros())
            * 8192;
        Tile { path_id: loc.path_id, x: loc.x, y: loc.y, p0, p1 }
    }

    fn loc(&self) -> (l: Loc)
        ensures
            l.path_id == self.path_id,
            l.x == self.x,
            l.y == self.y,
    {
        Loc { path_id: self.path_id, x: self.x, y: self.y }
    }

    /// The pixel columns of the tile that its segment touches.
    fn footprint(&self) -> (f: Footprint)
        ensures
            f.0 == footprint_of(*self),
            0 < f.0 < 256,
    {
        proof {
            lemma_footprint_range(*self);
            lemma_footprint_bits(self.p0, self.p1);
            lemma_footprint_bits(self.p1, self.p0);
        }
        let a = self.p0 & 0xffff;
        let b = self.p1 & 0xffff;
        let lo = if a < b { a } else { b };
        let hi = if a < b { b } else { a };
        let xmin = lo >> 13;
        let ceil = (hi + 8191) >> 13;
        let xmax = if xmin + 1 > ceil { xmin + 1 } else { ceil };
        assert(xmin == footprint_min(*self));
        assert(xmax == footprint_max(*self));
        proof { lemma_mask_range(xmin, xmax); }
        Footprint((1u32 << xmax) - (1u32 << xmin))
    }

    /// The change of winding number that the tile contributes.
    fn delta(&self) -> (d: i32)
        ensures
            d == tile_delta(*self),
    {
        (if (self.p1 >> 16) == 0 { 1i32 } else { 0i32 }) - (if (self.p0 >> 16) == 0 { 1i32 } else {
            0i32
        })
    }

    /// The row-major position key of the tile.
    fn xy_key(&self) -> (k: u32)
        ensures
            k == loc_key(*self),
    {
        let y = self.y as u32;
        let x = self.x as u32;
        assert(y < 65536 ==> (y << 16) == y * 65536) by (bit_vector);
        (y << 16) + x
    }

    /// Comparison function for sorting. Only compares the location, not the
    /// points.
    pub fn cmp(&self, b: &Tile) -> (r: Ordering)
        ensures
            r == tile_order(*self, *b),
    {
        let xya = self.xy_key();
        let xyb = b.xy_key();
        if self.path_id < b.path_id {
            Ordering::Less
        } else if b.path_id < self.path_id {
            Ordering::Greater
        } else if xya < xyb {
            Ordering::Less
        } else if xyb < xya {
            Ordering::Greater
        } else {
            Ordering::Equal
        }
    }
}

/// The tile that `Tile::new` builds at the given location from the column
/// mask `fp` and the winding change `delta`: its segment runs from the
/// lowest column of the mask to the end of the highest one, and starts
/// (`delta == -1`) or ends (`delta == 1`) one unit below the top edge.
pub open spec fn synthetic_tile(path_id: u32, x: u16, y: u16, fp: u32, delta: i32) -> Tile {
    Tile {
        path_id,
        x,
        y,
        p0: ((if delta == -1 { 65536int } else { 0int }) + u32_trailing_zeros(fp) * 8192) as u32,
        p1: ((if delta == 1 { 65536int } else { 0int }) + (32 - u32_leading_zeros(fp)) * 8192) as u32,
    }
}

/// The mask of the pixel columns `lo..hi`.
pub open spec fn column_mask(lo: u32, hi: u32) -> u32 {
    ((1u32 << hi) - (1u32 << lo)) as u32
}

/// The lowest set bit of the mask of columns `lo..hi` is `lo`, and its
/// highest is `hi - 1`.
proof fn lemma_column_mask_ends(lo: u32, hi: u32)
    requires
        lo < hi <= 8,
    ensures
        u32_trailing_zeros(column_mask(lo, hi)) == lo,
        32 - u32_leading_zeros(column_mask(lo, hi)) == hi,
{
    let m = column_mask(lo, hi);
    lemma_mask_range(lo, hi);
    axiom_u32_trailing_zeros(m);
    axiom_u32_leading_zeros(m);
    let tz = u32_trailing_zeros(m);
    let lz = u32_leading_zeros(m);
    assert((m >> lo) & 1u32 == 1u32) by (bit_vector)
        requires
            m == ((1u32 << hi) - (1u32 << lo)) as u32,
            lo < hi <= 8,
    ;
    let h1 = (hi - 1) as u32;
    assert((m >> h1) & 1u32 == 1u32) by (bit_vector)
        requires
            m == ((1u32 << hi) - (1u32 << lo)) as u32,
            lo < hi <= 8,
            h1 == hi - 1,
    ;
    if tz < lo {
        assert((m >> tz) & 1u32 == 0u32) by (bit_vector)
            requires
                m == ((1u32 << hi) - (1u32 << lo)) as u32,
                lo < hi <= 8,
                tz < lo,
        ;
    }
    if tz > lo {
        assert((m >> lo) & 1u32 == 0u32);
    }
    assert(lz < 32);
    let top = (31 - lz) as u32;
    assert((m >> top) & 1u32 != 0u32);
    if 32 - lz > hi {
        assert((m >> top) & 1u32 == 0u32) by (bit_vector)
            requires
                m == ((1u32 << hi) - (1u32 << lo)) as u32,
                lo < hi <= 8,
                hi <= top < 32,
        ;
    }
    if 32 - lz < hi {
        assert((m >> h1) & 1u32 == 0u32);
    }
}

/// A packed coordinate `base + c * 8192` with `c` a column below 8 and
/// `base` either 0 or one unit of y: its x part is the column's left edge,
/// and its y part is zero exactly when `base` is.
proof fn lemma_packed_column(base: u32, c: u32, p: u32)
    requires
        base == 0 || base == 65536,
        c <= 7,
        p == base + c * 8192,
    ensures
        fixed_x(p) == c * 8192,
        fixed_x(p) >> 13 == c,
        ((fixed_x(p) + 8191) as u32) >> 13 == c,
        (p >> 16 == 0) == (base == 0),
{
    assert(fixed_x(p) == c * 8192 && fixed_x(p) >> 13 == c && ((fixed_x(p) + 8191) as u32) >> 13
        == c && (p >> 16 == 0) == (base == 0)) by (bit_vector)
        requires
            base == 0 || base == 65536,
            c <= 7,
            p == base + c * 8192,
    ;
}

/// A tile built from a location and the mask of one run of columns
/// `lo..hi` (below column 7's end) gives them back: it is at that location
/// and its footprint is that mask, whatever its winding change.
pub proof fn lemma_synthetic_tile_footprint(path_id: u32, x: u16, y: u16, lo: u32, hi: u32, delta: i32)
    requires
        lo < hi <= 7,
    ensures
        synthetic_tile(path_id, x, y, column_mask(lo, hi), delta).path_id == path_id,
        synthetic_tile(path_id, x, y, column_mask(lo, hi), delta).x == x,
        synthetic_tile(path_id, x, y, column_mask(lo, hi), delta).y == y,
        footprint_of(synthetic_tile(path_id, x, y, column_mask(lo, hi), delta)) == column_mask(
            lo,
            hi,
        ),
{
    let t = synthetic_tile(path_id, x, y, column_mask(lo, hi), delta);
    lemma_column_mask_ends(lo, hi);
    let b0: u32 = if delta == -1 { 65536 } else { 0 };
    let b1: u32 = if delta == 1 { 65536 } else { 0 };
    lemma_packed_column(b0, lo, t.p0);
    lemma_packed_column(b1, hi, t.p1);
    assert(footprint_min(t) == lo);
    assert(footprint_max(t) == hi);
}

/// A tile built with a non-empty column mask below column 7's end and a
/// winding change `delta` of -1, 0 or 1 contributes `-delta` to the winding
/// number.
pub proof fn lemma_synthetic_tile_delta(path_id: u32, x: u16, y: u16, fp: u32, delta: i32)
    requires
        0 < fp < 128,
        delta == -1 || delta == 0 || delta == 1,
    ensures
        tile_delta(synthetic_tile(path_id, x, y, fp, delta)) == -delta,
{
    let t = synthetic_tile(path_id, x, y, fp, delta);
    lemma_mask_span(fp);
    axiom_u32_leading_zeros(fp);
    let lz = u32_leading_zeros(fp);
    let top = (31 - lz) as u32;
    assert((fp >> top) & 1u32 != 0u32);
    assert(fp < 128 && top < 32 && (fp >> top) & 1u32 != 0u32 ==> top < 7) by (bit_vector);
    let tz = u32_trailing_zeros(fp);
    let hi = (32 - lz) as u32;
    let b0: u32 = if delta == -1 { 65536 } else { 0 };
    let b1: u32 = if delta == 1 { 65536 } else { 0 };
    lemma_packed_column(b0, tz, t.p0);
    lemma_packed_column(b1, hi, t.p1);
}

/// A non-empty mask of the columns 0..8 has its lowest set bit below its
/// highest, and nothing above bit 7.
pub proof fn lemma_mask_span(fp: u32)
    requires
        0 < fp < 256,
    ensures
        u32_trailing_zeros(fp) < 32 - u32_leading_zeros(fp) <= 8,
{
    axiom_u32_trailing_zeros(fp);
    axiom_u32_leading_zeros(fp);
    let tz = u32_trailing_zeros(fp);
    let lz = u32_leading_zeros(fp);
    assert(lz < 32);
    let top = (31 - lz) as u32;
    assert((fp >> top) & 1u32 != 0u32);
    assert(fp < 256 && top < 32 && (fp >> top) & 1u32 != 0u32 ==> top < 8) by (bit_vector);
    assert(tz < 32);
    assert((fp >> tz) & 1u32 == 1u32);
    if tz >= 32 - lz {
        assert((fp >> tz) & 1u32 == 0u32);
    }
}

/// Or-ing two non-empty column masks gives a non-empty column mask.
pub proof fn lemma_mask_or(a: u32, b: u32)
    requires
        a < 256,
        0 < b < 256,
    ensures
        0 < (a | b) < 256,
{
    assert(a < 256 && 0 < b < 256 ==> 0 < (a | b) < 256) by (bit_vector);
}

/// Sum of the winding changes of the tiles `a..b`.
pub open spec fn seg_delta(tiles: Seq<Tile>, a: int, b: int) -> int
    decreases b - a,
{
    if b <= a {
        0
    } else {
        seg_delta(tiles, a, b - 1) + tile_delta(tiles[b - 1])
    }
}

pub proof fn lemma_seg_delta_bound(tiles: Seq<Tile>, a: int, b: int)
    requires
        a <= b,
    ensures
        -(b - a) <= seg_delta(tiles, a, b) <= b - a,
    decreases b - a,
{
    if b > a {
        lemma_seg_delta_bound(tiles, a, b - 1);
    }
}

/// The state of the strip scan: strips emitted, columns emitted, whether
/// the next segment starts a strip, the column count, the pending column
/// mask, the first tile of the pending segment, and the winding number.
pub type StripScan = (Seq<Strip>, Seq<StripColumn>, bool, int, u32, int, int);

/// Index of the first tile of the run of consecutive tiles in the same row
/// that ends with the tile at index `j`.
pub open spec fn row_start(tiles: Seq<Tile>, j: int) -> int
    decreases j,
{
    if j <= 0 {
        0
    } else if !same_row(tiles[j - 1], tiles[j]) {
        j
    } else {
        row_start(tiles, j - 1)
    }
}

/// The winding number at the tile at index `j`: the sum of the winding
/// changes of all the tiles before it in its row.
pub open spec fn winding_before(tiles: Seq<Tile>, j: int) -> int {
    seg_delta(tiles, row_start(tiles, j), j)
}

proof fn lemma_row_start_bound(tiles: Seq<Tile>, j: int)
    requires
        0 <= j,
    ensures
        0 <= row_start(tiles, j) <= j,
    decreases j,
{
    if j > 0 && same_row(tiles[j - 1], tiles[j]) {
        lemma_row_start_bound(tiles, j - 1);
    }
}

proof fn lemma_seg_delta_split(tiles: Seq<Tile>, a: int, b: int, c: int)
    requires
        a <= b <= c,
    ensures
        seg_delta(tiles, a, c) == seg_delta(tiles, a, b) + seg_delta(tiles, b, c),
    decreases c - b,
{
    if b < c {
        lemma_seg_delta_split(tiles, a, b, c - 1);
    }
}

/// The scan state after visiting the tile at index `i`.
pub open spec fn strip_step(tiles: Seq<Tile>, s: StripScan, i: int) -> StripScan {
    let prev = tiles[i - 1];
    let tile = tiles[i];
    if same_loc(prev, tile) {
        (s.0, s.1, s.2, s.3, s.4 | footprint_of(tile), s.5, s.6)
    } else {
        let same = same_strip(prev, tile);
        let fp = if same { s.4 | 8 } else { s.4 };
        let x0 = u32_trailing_zeros(fp) as int;
        let x1 = 32 - u32_leading_zeros(fp);
        let start = s.6;
        let new_columns = Seq::new(
            (x1 - x0) as nat,
            |k: int|
                StripColumn {
                    seg_start: s.5 as usize,
                    seg_end: i as usize,
                    x: (x0 + k) as u32,
                    winding: start as i32,
                },
        );
        let strips = if s.2 {
            s.0.push(
                Strip {
                    path_id: tile.path_id,
                    xy: (262144 * prev.y + 4 * prev.x + x0) as u32,
                    col: s.3 as u32,
                    winding: start as i32,
                },
            )
        } else {
            s.0
        };
        let delta = if same_row(prev, tile) {
            start + seg_delta(tiles, s.5, i)
        } else {
            0
        };
        (
            strips,
            s.1 + new_columns,
            !same,
            s.3 + (x1 - x0),
            (if same { 1u32 } else { 0u32 }) | footprint_of(tile),
            i,
            delta,
        )
    }
}

/// The scan state after visiting the tiles `0..n`.
pub open spec fn strip_scan(tiles: Seq<Tile>, n: int) -> StripScan
    decreases n,
{
    if n <= 1 {
        (Seq::empty(), Seq::empty(), true, 0, footprint_of(tiles[0]), 0, 0)
    } else {
        strip_step(tiles, strip_scan(tiles, n - 1), n - 1)
    }
}

/// What the scan needs of its input: at least one tile; consecutive tiles
/// of one row ordered by column; strip positions that fit in 32 bits; and
/// few enough tiles that column counts and winding numbers fit.
pub open spec fn strip_input_ok(tiles: Seq<Tile>) -> bool {
    &&& tiles.len() >= 1
    &&& 8 * tiles.len() <= u32::MAX
    &&& forall|i: int|
        1 <= i < tiles.len() && #[trigger] same_row(tiles[i - 1], tiles[i]) ==> tiles[i - 1].x
            <= tiles[i].x
    &&& forall|i: int| 0 <= i < tiles.len() ==> 262144 * #[trigger] tiles[i].y + 4 * tiles[i].x + 7 <= u32::MAX
}

/// Turn sorted tiles into strips, and the pixel columns whose coverage the
/// strips hold.
///
/// The last segment is never emitted: callers end the tiles with sentinels.
pub fn render_strips(tiles: &[Tile]) -> (res: (Vec<Strip>, Vec<StripColumn>))
    requires
        strip_input_ok(tiles@),
    ensures
        res.0@ == strip_scan(tiles@, tiles@.len() as int).0,
        res.1@ == strip_scan(tiles@, tiles@.len() as int).1,
        forall|k: int|
            0 <= k < res.1@.len() ==> #[trigger] res.1@[k].winding == winding_before(
                tiles@,
                res.1@[k].seg_start as int,
            ),
        forall|k: int|
            0 <= k < res.0@.len() ==> #[trigger] res.0@[k].col < res.1@.len() && res.0@[k].winding
                == res.1@[res.0@[k].col as int].winding,
        forall|k: int|
            0 <= k < res.1@.len() ==> {
                let c = #[trigger] res.1@[k];
                &&& c.seg_start < c.seg_end < tiles@.len()
                &&& c.x < 8
                &&& c.seg_start == 0 || !same_loc(tiles@[c.seg_start - 1], tiles@[c.seg_start as int])
                &&& !same_loc(tiles@[c.seg_end - 1], tiles@[c.seg_end as int])
                &&& forall|j: int|
                    c.seg_start <= j < c.seg_end ==> same_loc(
                        tiles@[c.seg_start as int],
                        #[trigger] tiles@[j],
                    )
            },
        forall|k: int|
            0 <= k < res.0@.len() ==> {
                let st = #[trigger] res.0@[k];
                let c = res.1@[st.col as int];
                st.xy == 262144 * tiles@[c.seg_start as int].y + 4 * tiles@[c.seg_start as int].x + c.x
            },
{
    let mut strips: Vec<Strip> = Vec::new();
    let mut columns: Vec<StripColumn> = Vec::new();
    let mut strip_start = true;
    let mut cols: u32 = 0;
    let mut fp: u32 = tiles[0].footprint().0;
    let mut seg_start: usize = 0;
    let mut delta: i32 = 0;
    let mut i: usize = 1;
    while i < tiles.len()
        invariant
            strip_input_ok(tiles@),
            1 <= i <= tiles@.len(),
            seg_start < i,
            strips@ == strip_scan(tiles@, i as int).0,
            columns@ == strip_scan(tiles@, i as int).1,
            strip_start == strip_scan(tiles@, i as int).2,
            cols == strip_scan(tiles@, i as int).3,
            fp == strip_scan(tiles@, i as int).4,
            seg_start == strip_scan(tiles@, i as int).5,
            delta == strip_scan(tiles@, i as int).6,
            0 < fp < 256,
            cols <= 8 * seg_start,
            -(seg_start as int) <= delta <= seg_start,
        decreases tiles@.len() - i,
    {
        let ghost s = strip_scan(tiles@, i as int);
        let prev_loc = tiles[i - 1].loc();
        let tile_loc = tiles[i].loc();
        if prev_loc != tile_loc {
            let start_delta = delta;
            assert(same_row(tiles@[i as int - 1], tiles@[i as int]) ==> tiles@[i as int - 1].x
                <= tiles@[i as int].x);
            let same_strip = prev_loc.same_strip(&tile_loc);
            if same_strip {
                proof { lemma_mask_or(fp, 8); }
                fp = fp | 8;
            }
            proof { lemma_mask_span(fp); }
            let x0 = fp.trailing_zeros();
            let x1 = 32 - fp.leading_zeros();
            let mut j = seg_start;
            while j < i
                invariant
                    seg_start <= j <= i,
                    i < tiles@.len(),
                    delta == start_delta + seg_delta(tiles@, seg_start as int, j as int),
                    -(seg_start as int) <= start_delta <= seg_start,
                    8 * tiles@.len() <= u32::MAX,
                decreases i - j,
            {
                proof { lemma_seg_delta_bound(tiles@, seg_start as int, j as int); }
                delta = delta + tiles[j].delta();
                j = j + 1;
            }
            proof { lemma_seg_delta_bound(tiles@, seg_start as int, i as int); }
            let ghost old_columns = columns@;
            let mut x = x0;
            while x < x1
                invariant
                    x0 <= x <= x1,
                    columns@ == old_columns + Seq::new(
                        (x - x0) as nat,
                        |k: int|
                            StripColumn {
                                seg_start: seg_start,
                                seg_end: i,
                                x: (x0 + k) as u32,
                                winding: start_delta,
                            },
                    ),
                decreases x1 - x,
            {
                columns.push(StripColumn { seg_start, seg_end: i, x, winding: start_delta });
                x = x + 1;
            }
            if strip_start {
                let xy = 262144 * (tiles[i - 1].y as u32) + 4 * (tiles[i - 1].x as u32) + x0;
                strips.push(Strip { path_id: tiles[i].path_id, xy, col: cols, winding: start_delta });
            }
            cols = cols + (x1 - x0);
            fp = if same_strip { 1 } else { 0 };
            strip_start = !same_strip;
            seg_start = i;
            if !prev_loc.same_row(&tile_loc) {
                delta = 0;
            }
        }
        proof { lemma_footprint_range(tiles@[i as int]); lemma_mask_or(fp, footprint_of(tiles@[i as int])); }
        fp = fp | tiles[i].footprint().0;
        i = i + 1;
    }
    proof {
        lemma_strip_scan_winding(tiles@, tiles@.len() as int);
        lemma_strip_scan_columns(tiles@, tiles@.len() as int);
        lemma_strip_scan_segments(tiles@, tiles@.len() as int);
    }
    (strips, columns)
}

/// Winding numbers of the strip scan: the winding that a column starts
/// from is the sum of the winding changes of all the tiles before its
/// segment in the same row (every tile of every earlier segment, not just
/// the last one at each location), and a strip starts from the winding of
/// its first column.
pub proof fn lemma_strip_scan_winding(tiles: Seq<Tile>, n: int)
    requires
        strip_input_ok(tiles),
        1 <= n <= tiles.len(),
    ensures
        0 <= row_start(tiles, strip_scan(tiles, n).5) <= strip_scan(tiles, n).5 < n,
        row_start(tiles, n - 1) == row_start(tiles, strip_scan(tiles, n).5),
        strip_scan(tiles, n).6 == winding_before(tiles, strip_scan(tiles, n).5),
        forall|k: int|
            0 <= k < strip_scan(tiles, n).1.len() ==> #[trigger] strip_scan(tiles, n).1[k].winding
                == winding_before(tiles, strip_scan(tiles, n).1[k].seg_start as int),
        forall|k: int|
            0 <= k < strip_scan(tiles, n).0.len() ==> #[trigger] strip_scan(tiles, n).0[k].col
                < strip_scan(tiles, n).1.len() && strip_scan(tiles, n).0[k].winding == strip_scan(
                tiles,
                n,
            ).1[strip_scan(tiles, n).0[k].col as int].winding,
    decreases n,
{
    if n <= 1 {
    } else {
        lemma_strip_scan_winding(tiles, n - 1);
        lemma_strip_scan_columns(tiles, n - 1);
        let s = strip_scan(tiles, n - 1);
        let t = strip_scan(tiles, n);
        let i = n - 1;
        let rs = row_start(tiles, s.5);
        lemma_seg_delta_bound(tiles, rs, s.5);
        lemma_row_start_bound(tiles, i);
        if same_loc(tiles[i - 1], tiles[i]) {
            assert(row_start(tiles, i) == row_start(tiles, i - 1));
        } else {
            let same = same_strip(tiles[i - 1], tiles[i]);
            let fp = if same { s.4 | 8 } else { s.4 };
            if same {
                lemma_mask_or(s.4, 8);
            }
            lemma_mask_span(fp);
            let x0 = u32_trailing_zeros(fp) as int;
            let x1 = 32 - u32_leading_zeros(fp);
            let start = s.6;
            assert(-(s.5) <= start <= s.5);
            assert((start as i32) as int == start);
            assert((s.5 as usize) as int == s.5);
            if same_row(tiles[i - 1], tiles[i]) {
                assert(row_start(tiles, i) == row_start(tiles, i - 1));
                lemma_seg_delta_split(tiles, rs, s.5, i);
            } else {
                assert(row_start(tiles, i) == i);
            }
            assert(t.1 == s.1 + Seq::new(
                (x1 - x0) as nat,
                |k: int|
                    StripColumn {
                        seg_start: s.5 as usize,
                        seg_end: i as usize,
                        x: (x0 + k) as u32,
                        winding: start as i32,
                    },
            ));
            assert forall|k: int| 0 <= k < t.1.len() implies #[trigger] t.1[k].winding
                == winding_before(tiles, t.1[k].seg_start as int) by {
                if k < s.1.len() {
                    assert(t.1[k] == s.1[k]);
                } else {
                    assert(t.1[k].seg_start == s.5 as usize);
                    assert(t.1[k].winding == start as i32);
                }
            }
            assert forall|k: int| 0 <= k < t.0.len() implies #[trigger] t.0[k].col < t.1.len()
                && t.0[k].winding == t.1[t.0[k].col as int].winding by {
                if k < s.0.len() {
                    assert(t.0[k] == s.0[k]);
                    assert(t.1[s.0[k].col as int] == s.1[s.0[k].col as int]);
                } else {
                    assert(t.0[k].col == s.3 as u32);
                    assert((s.3 as u32) as int == s.3);
                    assert(t.1[s.3] == Seq::new(
                        (x1 - x0) as nat,
                        |k: int|
                            StripColumn {
                                seg_start: s.5 as usize,
                                seg_end: i as usize,
                                x: (x0 + k) as u32,
                                winding: start as i32,
                            },
                    )[0]);
                }
            }
        }
    }
}

/// Segments of the strip scan: every column is computed from one whole
/// segment, a maximal run of consecutive tiles at one location; and a
/// strip starts at the pixel position of its first column: the segment's
/// tile position (4 pixels per tile, 65536 tile columns per row) plus the
/// column.
pub proof fn lemma_strip_scan_segments(tiles: Seq<Tile>, n: int)
    requires
        strip_input_ok(tiles),
        1 <= n <= tiles.len(),
    ensures
        strip_scan(tiles, n).5 == 0 || !same_loc(
            tiles[strip_scan(tiles, n).5 - 1],
            tiles[strip_scan(tiles, n).5],
        ),
        forall|j: int|
            strip_scan(tiles, n).5 <= j < n ==> same_loc(
                tiles[strip_scan(tiles, n).5],
                #[trigger] tiles[j],
            ),
        forall|k: int|
            0 <= k < strip_scan(tiles, n).1.len() ==> {
                let c = #[trigger] strip_scan(tiles, n).1[k];
                &&& c.seg_start == 0 || !same_loc(tiles[c.seg_start - 1], tiles[c.seg_start as int])
                &&& !same_loc(tiles[c.seg_end - 1], tiles[c.seg_end as int])
                &&& forall|j: int|
                    c.seg_start <= j < c.seg_end ==> same_loc(
                        tiles[c.seg_start as int],
                        #[trigger] tiles[j],
                    )
            },
        forall|k: int|
            0 <= k < strip_scan(tiles, n).0.len() ==> {
                let st = #[trigger] strip_scan(tiles, n).0[k];
                let c = strip_scan(tiles, n).1[st.col as int];
                st.xy == 262144 * tiles[c.seg_start as int].y + 4 * tiles[c.seg_start as int].x + c.x
            },
    decreases n,
{
    lemma_strip_scan_columns(tiles, n);
    lemma_strip_scan_winding(tiles, n);
    if n > 1 {
        lemma_strip_scan_segments(tiles, n - 1);
        lemma_strip_scan_columns(tiles, n - 1);
        lemma_strip_scan_winding(tiles, n - 1);
        let s = strip_scan(tiles, n - 1);
        let t = strip_scan(tiles, n);
        let i = n - 1;
        if same_loc(tiles[i - 1], tiles[i]) {
            assert(same_loc(tiles[s.5], tiles[i - 1]));
        } else {
            let same = same_strip(tiles[i - 1], tiles[i]);
            let fp = if same { s.4 | 8 } else { s.4 };
            if same {
                lemma_mask_or(s.4, 8);
            }
            lemma_mask_span(fp);
            let x0 = u32_trailing_zeros(fp) as int;
            let x1 = 32 - u32_leading_zeros(fp);
            let start = s.6;
            assert((s.5 as usize) as int == s.5);
            let fresh = Seq::new(
                (x1 - x0) as nat,
                |k: int|
                    StripColumn {
                        seg_start: s.5 as usize,
                        seg_end: i as usize,
                        x: (x0 + k) as u32,
                        winding: start as i32,
                    },
            );
            assert(t.1 == s.1 + fresh);
            assert forall|k: int| 0 <= k < t.1.len() implies {
                let c = #[trigger] t.1[k];
                &&& c.seg_start == 0 || !same_loc(tiles[c.seg_start - 1], tiles[c.seg_start as int])
                &&& !same_loc(tiles[c.seg_end - 1], tiles[c.seg_end as int])
                &&& forall|j: int|
                    c.seg_start <= j < c.seg_end ==> same_loc(
                        tiles[c.seg_start as int],
                        #[trigger] tiles[j],
                    )
            } by {
                if k < s.1.len() {
                    assert(t.1[k] == s.1[k]);
                } else {
                    assert(t.1[k] == fresh[k - s.1.len()]);
                }
            }
            assert forall|k: int| 0 <= k < t.0.len() implies {
                let st = #[trigger] t.0[k];
                let c = t.1[st.col as int];
                st.xy == 262144 * tiles[c.seg_start as int].y + 4 * tiles[c.seg_start as int].x + c.x
            } by {
                if k < s.0.len() {
                    assert(t.0[k] == s.0[k]);
                    assert(t.1[s.0[k].col as int] == s.1[s.0[k].col as int]);
                } else {
                    assert(t.0[k].col == s.3 as u32);
                    assert((s.3 as u32) as int == s.3);
                    assert(t.1[s.3] == fresh[0]);
                    assert(same_loc(tiles[s.5], tiles[i - 1]));
                    assert(262144 * tiles[i - 1].y + 4 * tiles[i - 1].x + x0 <= u32::MAX);
                }
            }
        }
    }
}

/// Tiles in non-decreasing `key_less` order.
pub open spec fn tiles_sorted(s: Seq<Tile>) -> bool {
    forall|i: int, j: int| 0 <= i < j < s.len() ==> !key_less(#[trigger] s[j], #[trigger] s[i])
}

/// `perm` says where each tile of `output` came from in `input`: each
/// output position takes a distinct input position, and tiles at the same
/// location keep their input order.
pub open spec fn stable_permutation(input: Seq<Tile>, output: Seq<Tile>, perm: Seq<int>) -> bool {
    &&& perm.len() == output.len()
    &&& output.len() == input.len()
    &&& forall|i: int|
        0 <= i < output.len() ==> 0 <= #[trigger] perm[i] < input.len() && output[i]
            == input[perm[i]]
    &&& forall|i: int, j: int| 0 <= i < j < output.len() ==> #[trigger] perm[i] != #[trigger] perm[j]
    &&& forall|i: int, j: int|
        0 <= i < j < output.len() && same_loc(#[trigger] output[i], #[trigger] output[j])
            ==> perm[i] < perm[j]
}

/// `output` is `input` rearranged without reordering tiles at the same
/// location.
pub open spec fn stable_sorted_from(input: Seq<Tile>, output: Seq<Tile>) -> bool {
    exists|perm: Seq<int>| #[trigger] stable_permutation(input, output, perm)
}

/// Sorts tiles with `Tile::cmp`, calling std's `slice::sort_by`.
///
/// Trusted: std documents that `sort_by` sorts the slice with the given
/// comparison function and that the sort is stable (it does not reorder
/// elements that compare equal). `Tile::cmp` is a total order (see
/// `lemma_tile_order_total`) under which two tiles are equal exactly when
/// they are at the same location, so the result holds the same tiles in
/// non-decreasing order, tiles at one location in their original order.
#[verifier::external_body]
fn sort_tiles(tiles: &mut Vec<Tile>)
    ensures
        final(tiles)@.to_multiset() == old(tiles)@.to_multiset(),
        tiles_sorted(final(tiles)@),
        stable_sorted_from(old(tiles)@, final(tiles)@),
{
    tiles.sort_by(Tile::cmp);
}

/// The first sentinel tile: together with the second one it closes the last
/// real segment and produces a sentinel strip.
pub open spec fn sentinel_a() -> Tile {
    Tile { path_id: 0xffff_fffe, x: 0x3fff, y: 0x3fff, p0: 0, p1: 0 }
}

pub open spec fn sentinel_b() -> Tile {
    Tile { path_id: 0xffff_ffff, x: 0x3fff, y: 0x3fff, p0: 0, p1: 0 }
}

/// A tile that `make_strips` accepts: its path is not one of the sentinel
/// paths and its strip position fits in 32 bits.
pub open spec fn tile_ok(t: Tile) -> bool {
    t.path_id < 0xffff_fffe && 262144 * t.y + 4 * t.x + 7 <= u32::MAX
}

/// Sort the tiles, end them with the sentinels and render them into strips.
///
/// Returns the tiles in the order the strips and columns refer to them
/// (the columns' coverage is computed from those tiles), the strips, and
/// the columns.
pub fn make_strips(tiles: Vec<Tile>) -> (res: (Vec<Tile>, Vec<Strip>, Vec<StripColumn>))
    requires
        forall|i: int| 0 <= i < tiles@.len() ==> tile_ok(#[trigger] tiles@[i]),
        8 * (tiles@.len() + 2) <= u32::MAX,
    ensures
        res.0@.len() == tiles@.len() + 2,
        res.0@.take(tiles@.len() as int).to_multiset() == tiles@.to_multiset(),
        tiles_sorted(res.0@.take(tiles@.len() as int)),
        stable_sorted_from(tiles@, res.0@.take(tiles@.len() as int)),
        res.0@[tiles@.len() as int] == sentinel_a(),
        res.0@[tiles@.len() as int + 1] == sentinel_b(),
        res.1@ == strip_scan(res.0@, res.0@.len() as int).0,
        res.2@ == strip_scan(res.0@, res.0@.len() as int).1,
{
    let ghost input = tiles@;
    let mut tiles = tiles;
    sort_tiles(&mut tiles);
    let ghost sorted = tiles@;
    proof {
        to_multiset_len(sorted);
        to_multiset_len(input);
    }
    assert forall|k: int| 0 <= k < sorted.len() implies tile_ok(#[trigger] sorted[k]) by {
        to_multiset_contains(sorted, sorted[k]);
        to_multiset_contains(input, sorted[k]);
        assert(sorted.contains(sorted[k]));
        let j = choose|j: int| 0 <= j < input.len() && input[j] == sorted[k];
        assert(tile_ok(input[j]));
    }
    tiles.push(Tile { path_id: 0xffff_fffe, x: 0x3fff, y: 0x3fff, p0: 0, p1: 0 });
    tiles.push(Tile { path_id: 0xffff_ffff, x: 0x3fff, y: 0x3fff, p0: 0, p1: 0 });
    let ghost all = tiles@;
    assert(all.take(sorted.len() as int) =~= sorted);
    assert forall|i: int|
        1 <= i < all.len() && #[trigger] same_row(all[i - 1], all[i]) implies all[i - 1].x
        <= all[i].x by {
        if i < sorted.len() {
            assert(!key_less(sorted[i], sorted[i - 1]));
        } else if i == sorted.len() {
            if i > 0 {
                assert(tile_ok(sorted[i - 1]));
            }
        }
    }
    assert forall|i: int| 0 <= i < all.len() implies 262144 * #[trigger] all[i].y + 4 * all[i].x
        + 7 <= u32::MAX by {
        if i < sorted.len() {
            assert(tile_ok(sorted[i]));
        }
    }
    let (strips, columns) = render_strips(tiles.as_slice());
    (tiles, strips, columns)
}

/// `Tile::cmp` is a total order on tile positions: exactly one of less,
/// equal, greater holds, swapping the arguments swaps less and greater,
/// equal means same path and position, and less is transitive.
pub proof fn lemma_tile_order_total(a: Tile, b: Tile, c: Tile)
    ensures
        (tile_order(a, b) == Ordering::Less) == (tile_order(b, a) == Ordering::Greater),
        (tile_order(a, b) == Ordering::Equal) == (a.path_id == b.path_id && a.x == b.x && a.y
            == b.y),
        tile_order(a, b) == Ordering::Less && tile_order(b, c) == Ordering::Less ==> tile_order(
            a,
            c,
        ) == Ordering::Less,
{
}

/// Column accounting of the strip scan: the column count is the number of
/// columns emitted; strips refer to columns in emission order and never past
/// the end; every column comes from a segment of earlier tiles and lies in
/// the columns 0..8 of its tile pair.
pub proof fn lemma_strip_scan_columns(tiles: Seq<Tile>, n: int)
    requires
        strip_input_ok(tiles),
        1 <= n <= tiles.len(),
    ensures
        strip_scan(tiles, n).3 == strip_scan(tiles, n).1.len(),
        strip_scan(tiles, n).3 <= 8 * strip_scan(tiles, n).5,
        0 <= strip_scan(tiles, n).5 < n,
        0 < strip_scan(tiles, n).4 < 256,
        forall|k: int|
            0 <= k < strip_scan(tiles, n).0.len() ==> #[trigger] strip_scan(tiles, n).0[k].col
                <= strip_scan(tiles, n).1.len(),
        forall|k: int, l: int|
            0 <= k < l < strip_scan(tiles, n).0.len() ==> #[trigger] strip_scan(tiles, n).0[k].col
                <= #[trigger] strip_scan(tiles, n).0[l].col,
        forall|k: int|
            0 <= k < strip_scan(tiles, n).1.len() ==> {
                let c = #[trigger] strip_scan(tiles, n).1[k];
                &&& c.seg_start < c.seg_end < n
                &&& c.x < 8
            },
    decreases n,
{
    if n <= 1 {
        lemma_footprint_range(tiles[0]);
    } else {
        lemma_strip_scan_columns(tiles, n - 1);
        let s = strip_scan(tiles, n - 1);
        let i = n - 1;
        lemma_footprint_range(tiles[i]);
        if same_loc(tiles[i - 1], tiles[i]) {
            lemma_mask_or(s.4, footprint_of(tiles[i]));
        } else {
            let same = same_strip(tiles[i - 1], tiles[i]);
            let fp = if same { s.4 | 8 } else { s.4 };
            if same {
                lemma_mask_or(s.4, 8);
            }
            lemma_mask_span(fp);
            lemma_mask_or((if same { 1u32 } else { 0u32 }), footprint_of(tiles[i]));
            let t = strip_scan(tiles, n);
            assert forall|k: int| 0 <= k < t.1.len() implies {
                let c = #[trigger] t.1[k];
                &&& c.seg_start < c.seg_end < n
                &&& c.x < 8
            } by {
                if k >= s.1.len() {
                    let c = t.1[k];
                    assert(c.seg_end == i);
                }
            }
        }
    }
}

} // verus!
