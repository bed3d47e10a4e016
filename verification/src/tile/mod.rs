//! Tiles: which part of the data they show, and how it gets into them.
pub mod layer;
pub mod mvt;
pub mod points;
pub mod render;

use crate::geo::{law_boxes_meet_in_a_point, LngLat, LngLatBox};
use crate::hilbert::{
    curve, in_square, law_curve_refines, law_positions_differ, law_positions_fit, xy_to_hilbert,
};
use crate::number::{at_most, less, Number};
use vstd::arithmetic::div_mod::*;
use vstd::arithmetic::mul::*;
use vstd::arithmetic::power2::*;
use vstd::bits::*;
use vstd::prelude::*;

verus! {

/// A tile: zoom, column and row.
pub type Zxy = (u8, u32, u32);

/// The tile exists, and its zoom is one that offsets can be computed for.
pub open spec fn is_tile(zxy: Zxy) -> bool {
    zxy.0 <= 31 && in_square(zxy.0 as nat, zxy.1 as int, zxy.2 as int)
}

/// The base tile at column `x` and row `y` of zoom `base_z` overlaps the tile: one of the two lies
/// within the other.
pub open spec fn overlaps(base_z: u8, x: int, y: int, zxy: Zxy) -> bool {
    let (z, tx, ty) = zxy;
    if z < base_z {
        let scale = pow2((base_z - z) as nat) as int;
        x / scale == tx && y / scale == ty
    } else {
        let scale = pow2((z - base_z) as nat) as int;
        x == tx as int / scale && y == ty as int / scale
    }
}

/// The positions, from the first up to but not including the second, of the base tiles that
/// overlap a tile.
pub open spec fn chunk_range(base_z: u8, zxy: Zxy) -> (int, int) {
    let (z, x, y) = zxy;
    if z < base_z {
        let count = pow2((2 * (base_z - z)) as nat) as int;
        let begin = curve(z as nat, x as int, y as int) * count;
        (begin, begin + count)
    } else {
        let scale = pow2((z - base_z) as nat) as int;
        let begin = curve(base_z as nat, x as int / scale, y as int / scale);
        (begin, begin + 1)
    }
}

proof fn lemma_shrunk(order: nat, steps: nat, x: int, y: int)
    requires
        in_square(order + steps, x, y),
    ensures
        in_square(order, x / pow2(steps) as int, y / pow2(steps) as int),
{
    lemma_pow2_adds(order, steps);
    lemma_pow2_pos(steps);
    let (a, b) = (pow2(order) as int, pow2(steps) as int);
    lemma_mul_is_commutative(a, b);
    lemma_multiply_divide_lt(x, b, a);
    lemma_multiply_divide_lt(y, b, a);
    lemma_div_pos_is_pos(x, b);
    lemma_div_pos_is_pos(y, b);
}

/// A base tile lies in the range of a tile exactly where the two overlap.
pub proof fn law_range_holds_what_overlaps(base_z: u8, x: int, y: int, zxy: Zxy)
    requires
        base_z <= 31,
        is_tile(zxy),
        in_square(base_z as nat, x, y),
    ensures
        chunk_range(base_z, zxy).0 <= curve(base_z as nat, x, y) < chunk_range(base_z, zxy).1
            <==> overlaps(base_z, x, y, zxy),
{
    let (z, tx, ty) = zxy;
    if z < base_z {
        let steps = (base_z - z) as nat;
        let scale = pow2(steps) as int;
        assert(z as nat + steps == base_z as nat);
        law_curve_refines(z as nat, steps, x, y);
        let count = pow2(2 * steps) as int;
        lemma_pow2_pos(2 * steps);
        assert((2 * (base_z - z)) as nat == 2 * steps);
        let h = curve(base_z as nat, x, y);
        let outer = curve(z as nat, x / scale, y / scale);
        let begin = curve(z as nat, tx as int, ty as int);
        lemma_fundamental_div_mod(h, count);
        assert(count * (h / count) == outer * count) by {
            lemma_mul_is_commutative(count, outer);
        }
        if outer == begin {
            law_positions_differ(z as nat, x / scale, y / scale, tx as int, ty as int);
        } else {
            if outer < begin {
                lemma_mul_inequality(outer + 1, begin, count);
            } else {
                lemma_mul_inequality(begin + 1, outer, count);
            }
            lemma_mul_is_distributive_add_other_way(count, outer, 1);
            lemma_mul_is_distributive_add_other_way(count, begin, 1);
        }
    } else {
        let steps = (z - base_z) as nat;
        let scale = pow2(steps) as int;
        assert(base_z as nat + steps == z as nat);
        lemma_shrunk(base_z as nat, steps, tx as int, ty as int);
        if curve(base_z as nat, x, y) == curve(base_z as nat, tx as int / scale, ty as int / scale) {
            law_positions_differ(
                base_z as nat,
                x,
                y,
                tx as int / scale,
                ty as int / scale,
            );
        }
    }
}

/// The tile is one of the four that a tile of the zoom above falls into.
pub open spec fn is_child(child: Zxy, parent: Zxy) -> bool {
    &&& child.0 == parent.0 + 1
    &&& child.1 as int / 2 == parent.1
    &&& child.2 as int / 2 == parent.2
}

/// The range of a tile holds the ranges of the four tiles that it falls into, so that a tile
/// without data has no data below it.
pub proof fn law_ranges_nest(base_z: u8, parent: Zxy, child: Zxy)
    requires
        base_z <= 31,
        is_tile(parent),
        is_tile(child),
        is_child(child, parent),
    ensures
        chunk_range(base_z, parent).0 <= chunk_range(base_z, child).0,
        chunk_range(base_z, child).1 <= chunk_range(base_z, parent).1,
{
    let (z, x, y) = parent;
    let (cz, cx, cy) = child;
    lemma2_to64();
    if z < base_z {
        assert(z as nat + 1 == cz as nat);
        law_curve_refines(z as nat, 1, cx as int, cy as int);
        let h = curve(cz as nat, cx as int, cy as int);
        let outer = curve(z as nat, x as int, y as int);
        assert(pow2(2 * 1) == 4);
        assert(h / 4 == outer);
        assert(4 * outer <= h && h < 4 * outer + 4);
        let steps = (base_z - cz) as nat;
        let count = pow2(2 * steps) as int;
        lemma_pow2_adds(2, 2 * steps);
        assert((2 * (base_z - z)) as nat == 2 + 2 * steps);
        lemma_pow2_pos(2 * steps);
        assert(chunk_range(base_z, parent).0 == outer * (4 * count));
        assert(outer * (4 * count) == (4 * outer) * count) by (nonlinear_arith);
        lemma_mul_inequality(4 * outer, h, count);
        lemma_mul_inequality(h + 1, 4 * outer + 4, count);
        lemma_mul_is_distributive_add_other_way(count, h, 1);
        lemma_mul_is_distributive_add_other_way(count, 4 * outer, 4);
        if cz < base_z {
            assert((2 * (base_z - cz)) as nat == 2 * steps);
            assert(chunk_range(base_z, child).0 == h * count);
        } else {
            assert(pow2(0) == 1);
            assert(cx as int / 1 == cx as int && cy as int / 1 == cy as int);
            assert(chunk_range(base_z, child).0 == h);
            assert(steps == 0);
            assert(count == 1);
            assert(h * count == h) by (nonlinear_arith)
                requires
                    count == 1,
            ;
        }
    } else {
        let steps = (z - base_z) as nat;
        assert((cz - base_z) as nat == steps + 1);
        lemma_pow2_unfold(steps + 1);
        lemma_pow2_pos(steps);
        lemma_div_denominator(cx as int, 2, pow2(steps) as int);
        lemma_div_denominator(cy as int, 2, pow2(steps) as int);
    }
}

/// 2^`n` as a shifted one.
pub(crate) fn shifted(n: u8) -> (power: u64)
    requires
        n <= 62,
    ensures
        power == pow2(n as nat),
        power >= 1,
{
    proof {
        lemma_pow2_pos(n as nat);
        lemma2_to64_rest();
        if n < 62 {
            lemma_pow2_strictly_increases(n as nat, 62);
        }
        assert(1 * pow2(n as nat) <= u64::MAX);
        lemma_u64_shl_is_mul(1, n as u64);
    }
    1u64 << (n as u64)
}

/// The range of positions of the base tiles that overlap a tile.
pub fn zxy_to_chunk_id_range(base_z: u8, zxy: Zxy) -> (range: (u64, u64))
    requires
        base_z <= 31,
        is_tile(zxy),
    ensures
        (range.0 as int, range.1 as int) == chunk_range(base_z, zxy),
        range.0 < range.1,
{
    let (z, x, y) = zxy;
    if z < base_z {
        let steps: u8 = base_z - z;
        let ghost n = steps as nat;
        let scale: u64 = shifted(steps);
        let id = xy_to_hilbert(z, x, y);
        proof {
            lemma_pow2_adds(n, n);
            assert(n + n == 2 * n);
            assert((2 * (base_z - z)) as nat == 2 * n);
            let count = pow2(2 * n) as int;
            lemma_pow2_pos(2 * n);
            lemma_pow2_adds(2 * z as nat, 2 * n);
            lemma2_to64_rest();
            assert(2 * z as nat + 2 * n == 2 * base_z as nat);
            if base_z < 31 {
                lemma_pow2_strictly_increases(2 * base_z as nat, 62);
            }
            law_positions_fit(z as nat, x as int, y as int);
            let top = pow2(2 * z as nat) as int;
            assert(id * count + count <= top * count) by (nonlinear_arith)
                requires
                    id + 1 <= top,
                    count >= 1,
            ;
            assert(id * scale * scale == id * count) by (nonlinear_arith)
                requires
                    scale * scale == count,
            ;
            assert(id * scale <= id * count) by (nonlinear_arith)
                requires
                    scale * scale == count,
                    scale >= 1,
                    id >= 0,
            ;
        }
        let begin: u64 = id * scale * scale;
        (begin, begin + scale * scale)
    } else {
        let steps: u8 = z - base_z;
        let ghost n = steps as nat;
        proof {
            lemma_u32_shr_is_div(x, steps as u32);
            lemma_u32_shr_is_div(y, steps as u32);
            assert(base_z as nat + n == z as nat);
            lemma_shrunk(base_z as nat, n, x as int, y as int);
        }
        let begin = xy_to_hilbert(base_z, x >> (steps as u32), y >> (steps as u32));
        proof {
            lemma2_to64_rest();
            if base_z < 31 {
                lemma_pow2_strictly_increases(2 * base_z as nat, 62);
            }
        }
        (begin, begin + 1)
    }
}

/// What a tile shows, its margin included. East of the antimeridian the data goes on counting
/// degrees, so the tile is also known by its place one turn further.
#[derive(Clone, Copy, Debug)]
pub struct TileContext {
    pub zxy: Zxy,
    pub geographic_bounds: LngLatBox,
    pub wrapped_geographic_bounds: LngLatBox,
}

/// The context is that of a tile between two corners, given at their place and one turn further.
pub open spec fn is_context(
    context: TileContext,
    zxy: Zxy,
    corners: (LngLat, LngLat),
    wrapped: (LngLat, LngLat),
) -> bool {
    &&& context.zxy == zxy
    &&& context.geographic_bounds == LngLatBox::spanned(corners.0, corners.1)
    &&& context.wrapped_geographic_bounds == LngLatBox::spanned(wrapped.0, wrapped.1)
}

impl TileContext {
    /// A tile between two corners, given at their place and one turn further.
    pub fn new(zxy: Zxy, corners: (LngLat, LngLat), wrapped: (LngLat, LngLat)) -> (context:
        TileContext)
        ensures
            context.zxy == zxy,
            context.geographic_bounds == LngLatBox::spanned(corners.0, corners.1),
            context.wrapped_geographic_bounds == LngLatBox::spanned(wrapped.0, wrapped.1),
            is_context(context, zxy, corners, wrapped),
    {
        TileContext {
            zxy,
            geographic_bounds: LngLatBox::new(corners.0, corners.1),
            wrapped_geographic_bounds: LngLatBox::new(wrapped.0, wrapped.1),
        }
    }

    /// A cell between two corners is visible in the tile, at its place or, where it reaches beyond
    /// the antimeridian, one turn further.
    pub open spec fn shows(self, corners: (LngLat, LngLat)) -> bool {
        let cell = LngLatBox::spanned(corners.0, corners.1);
        ||| self.geographic_bounds.meets(cell)
        ||| less(antimeridian(), corners.1.lng) && self.wrapped_geographic_bounds.meets(cell)
    }

    /// Whether a cell is visible in the tile.
    pub fn visible(&self, corners: (LngLat, LngLat)) -> (answer: bool)
        ensures
            answer == self.shows(corners),
    {
        let cell = LngLatBox::new(corners.0, corners.1);
        let edge = Number { bits: 0x4066_8000_0000_0000 };
        self.geographic_bounds.intersects_box(&cell) || (edge.less_than(corners.1.lng)
            && self.wrapped_geographic_bounds.intersects_box(&cell))
    }
}

/// 180 degrees.
pub open spec fn antimeridian() -> Number {
    Number { bits: 0x4066_8000_0000_0000 }
}

/// The point lies between two opposite corners, whichever of them comes first.
pub open spec fn lies_between(corners: (LngLat, LngLat), lng: Number, lat: Number) -> bool {
    &&& at_most(corners.0.lng, lng) && at_most(lng, corners.1.lng) || at_most(corners.1.lng, lng)
        && at_most(lng, corners.0.lng)
    &&& at_most(corners.0.lat, lat) && at_most(lat, corners.1.lat) || at_most(corners.1.lat, lat)
        && at_most(lat, corners.0.lat)
}

/// A cell is visible in a tile exactly where a point of the cell lies in the tile: at its place or,
/// where the cell's second corner lies beyond the antimeridian, one turn further.
pub proof fn law_visible_cells_share_a_point_with_the_tile(
    context: TileContext,
    zxy: Zxy,
    tile: (LngLat, LngLat),
    wrapped: (LngLat, LngLat),
    corners: (LngLat, LngLat),
)
    requires
        is_context(context, zxy, tile, wrapped),
    ensures
        context.zxy == zxy,
        context.shows(corners) <==> {
            ||| exists|lng: Number, lat: Number|
                #[trigger] lies_between(tile, lng, lat) && lies_between(corners, lng, lat)
            ||| less(antimeridian(), corners.1.lng) && exists|lng: Number, lat: Number|
                #[trigger] lies_between(wrapped, lng, lat) && lies_between(corners, lng, lat)
        },
{
    let cell = LngLatBox::spanned(corners.0, corners.1);
    lemma_between_corners(tile);
    lemma_between_corners(wrapped);
    lemma_between_corners(corners);
    law_boxes_meet_in_a_point(context.geographic_bounds, cell);
    law_boxes_meet_in_a_point(context.wrapped_geographic_bounds, cell);
    if context.geographic_bounds.meets(cell) {
        let (lng, lat) = choose|lng: Number, lat: Number|
            #![trigger context.geographic_bounds.covers(lng, lat)]
            context.geographic_bounds.covers(lng, lat) && cell.covers(lng, lat);
        assert(lies_between(tile, lng, lat) && lies_between(corners, lng, lat));
    }
    if context.wrapped_geographic_bounds.meets(cell) {
        let (lng, lat) = choose|lng: Number, lat: Number|
            #![trigger context.wrapped_geographic_bounds.covers(lng, lat)]
            context.wrapped_geographic_bounds.covers(lng, lat) && cell.covers(lng, lat);
        assert(lies_between(wrapped, lng, lat) && lies_between(corners, lng, lat));
    }
    if exists|lng: Number, lat: Number|
        #[trigger] lies_between(tile, lng, lat) && lies_between(corners, lng, lat) {
        let (lng, lat) = choose|lng: Number, lat: Number|
            #[trigger] lies_between(tile, lng, lat) && lies_between(corners, lng, lat);
        assert(context.geographic_bounds.covers(lng, lat) && cell.covers(lng, lat));
    }
    if exists|lng: Number, lat: Number|
        #[trigger] lies_between(wrapped, lng, lat) && lies_between(corners, lng, lat) {
        let (lng, lat) = choose|lng: Number, lat: Number|
            #[trigger] lies_between(wrapped, lng, lat) && lies_between(corners, lng, lat);
        assert(context.wrapped_geographic_bounds.covers(lng, lat) && cell.covers(lng, lat));
    }
}

proof fn lemma_between_corners(corners: (LngLat, LngLat))
    ensures
        LngLatBox::spanned(corners.0, corners.1).well_formed(),
        forall|lng: Number, lat: Number|
            #![trigger lies_between(corners, lng, lat)]
            #![trigger LngLatBox::spanned(corners.0, corners.1).covers(lng, lat)]
            lies_between(corners, lng, lat) <==> LngLatBox::spanned(corners.0, corners.1).covers(
                lng,
                lat,
            ),
{
}

} // verus!
