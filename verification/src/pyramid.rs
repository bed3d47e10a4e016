//! The tiles of an archive: from the tile that shows the whole world down, wherever there is data.
use crate::hilbert::{curve, in_square};
use crate::model::PreparedProduct;
use crate::tile::{
    chunk_range, is_child, is_tile, law_range_holds_what_overlaps, law_ranges_nest, overlaps,
    zxy_to_chunk_id_range, Zxy,
};
use crate::vectors::lemma_joined_contains;
use vstd::arithmetic::div_mod::*;
use vstd::arithmetic::power2::*;
use vstd::prelude::*;

verus! {

/// The products are such that ranges can be looked up in them.
pub open spec fn are_searchable(products: Seq<PreparedProduct>) -> bool {
    forall|i: int|
        0 <= i < products.len() ==> (#[trigger] products[i]).chunks_in_order()
            && products[i].spec.base_z <= 31
}

/// The product has data that overlaps the tile.
pub open spec fn reaches(product: PreparedProduct, zxy: Zxy) -> bool {
    let range = chunk_range(product.spec.base_z, zxy);
    exists|i: int|
        0 <= i < product.chunks@.len() && range.0 <= (#[trigger] product.chunks@[i]).0 < range.1
}

/// Some product has data that overlaps the tile.
pub open spec fn any_reaches(products: Seq<PreparedProduct>, zxy: Zxy) -> bool {
    exists|i: int| 0 <= i < products.len() && reaches(#[trigger] products[i], zxy)
}

/// Whether some product has data that overlaps the tile.
pub fn has_source_data(products: &Vec<PreparedProduct>, zxy: Zxy) -> (answer: bool)
    requires
        are_searchable(products@),
        is_tile(zxy),
    ensures
        answer == any_reaches(products@, zxy),
{
    for i in 0..products.len()
        invariant
            are_searchable(products@),
            is_tile(zxy),
            forall|k: int| 0 <= k < i ==> !reaches(#[trigger] products@[k], zxy),
    {
        proof {
            assert(products@[i as int].chunks_in_order());
        }
        let (begin, end) = zxy_to_chunk_id_range(products[i].spec.base_z, zxy);
        if products[i].has_chunks_in_range(begin, end) {
            proof {
                assert(reaches(products@[i as int], zxy));
            }
            return true;
        }
    }
    false
}

/// The four tiles that a tile falls into: left to right, then top to bottom.
pub open spec fn child(zxy: Zxy, n: int) -> Zxy {
    ((zxy.0 + 1) as u8, (zxy.1 * 2 + n % 2) as u32, (zxy.2 * 2 + n / 2) as u32)
}

/// The tiles with data among a tile and those below it, at zooms from `min_zoom` to `max_zoom`.
pub open spec fn pyramid(
    products: Seq<PreparedProduct>,
    zxy: Zxy,
    min_zoom: u8,
    max_zoom: u8,
) -> Seq<Zxy>
    decreases max_zoom - zxy.0,
{
    if !any_reaches(products, zxy) {
        Seq::empty()
    } else {
        let here = if zxy.0 >= min_zoom {
            seq![zxy]
        } else {
            Seq::empty()
        };
        if zxy.0 < max_zoom {
            here + pyramid(products, child(zxy, 0), min_zoom, max_zoom) + pyramid(
                products,
                child(zxy, 1),
                min_zoom,
                max_zoom,
            ) + pyramid(products, child(zxy, 2), min_zoom, max_zoom) + pyramid(
                products,
                child(zxy, 3),
                min_zoom,
                max_zoom,
            )
        } else {
            here
        }
    }
}

/// The tile lies within another.
pub open spec fn within(tile: Zxy, zxy: Zxy) -> bool {
    &&& tile.0 >= zxy.0
    &&& tile.1 as int / pow2((tile.0 - zxy.0) as nat) as int == zxy.1
    &&& tile.2 as int / pow2((tile.0 - zxy.0) as nat) as int == zxy.2
}

proof fn lemma_child(zxy: Zxy, n: int)
    requires
        is_tile(zxy),
        zxy.0 < 31,
        0 <= n < 4,
    ensures
        is_tile(child(zxy, n)),
        is_child(child(zxy, n), zxy),
        child(zxy, n).0 == zxy.0 + 1,
        child(zxy, n).1 == zxy.1 * 2 + n % 2,
        child(zxy, n).2 == zxy.2 * 2 + n / 2,
{
    lemma_pow2_unfold((zxy.0 + 1) as nat);
    lemma2_to64();
    lemma_pow2_strictly_increases(zxy.0 as nat, 31);
}

/// A tile strictly within another lies within exactly one of the four that it falls into.
proof fn lemma_within_child(tile: Zxy, zxy: Zxy)
    requires
        is_tile(zxy),
        is_tile(tile),
        zxy.0 < tile.0,
    ensures
        within(tile, zxy) <==> exists|n: int| 0 <= n < 4 && within(tile, #[trigger] child(zxy, n)),
        forall|m: int, n: int|
            #![trigger child(zxy, m), child(zxy, n)]
            0 <= m < 4 && 0 <= n < 4 && within(tile, child(zxy, m)) && within(
                tile,
                child(zxy, n),
            ) ==> m == n,
{
    let d = (tile.0 - zxy.0 - 1) as nat;
    let p = pow2(d) as int;
    assert(pow2((tile.0 - zxy.0) as nat) == p * 2) by {
        assert((tile.0 - zxy.0) as nat == d + 1);
        lemma_pow2_unfold(d + 1);
    }
    lemma_pow2_pos(d);
    lemma_div_denominator(tile.1 as int, p, 2);
    lemma_div_denominator(tile.2 as int, p, 2);
    let (cx, cy) = (tile.1 as int / p, tile.2 as int / p);
    assert forall|n: int| 0 <= n < 4 implies (within(tile, #[trigger] child(zxy, n)) <==> cx
        == zxy.1 * 2 + n % 2 && cy == zxy.2 * 2 + n / 2) by {
        lemma_child(zxy, n);
        assert((tile.0 - child(zxy, n).0) as nat == d);
    }
    if within(tile, zxy) {
        assert(cx / 2 == zxy.1 && cy / 2 == zxy.2);
        let n = (cx % 2) + 2 * (cy % 2);
        assert(within(tile, child(zxy, n)));
    }
}

/// Data below a tile is data of the tile.
proof fn lemma_data_nests(products: Seq<PreparedProduct>, parent: Zxy, tile: Zxy)
    requires
        are_searchable(products),
        is_tile(parent),
        is_tile(tile),
        within(tile, parent),
        any_reaches(products, tile),
    ensures
        any_reaches(products, parent),
    decreases tile.0 - parent.0,
{
    if tile.0 == parent.0 {
        lemma2_to64();
        assert(pow2(0) == 1);
        assert(tile.1 as int / 1 == tile.1 as int && tile.2 as int / 1 == tile.2 as int);
        assert(tile == parent);
    } else {
        lemma_within_child(tile, parent);
        let n = choose|n: int| 0 <= n < 4 && within(tile, #[trigger] child(parent, n));
        let below = child(parent, n);
        lemma_child(parent, n);
        lemma_data_nests(products, below, tile);
        let i = choose|i: int| 0 <= i < products.len() && reaches(#[trigger] products[i], below);
        let product = products[i];
        assert(product.spec.base_z <= 31);
        law_ranges_nest(product.spec.base_z, parent, below);
        let range = chunk_range(product.spec.base_z, below);
        let k = choose|k: int|
            0 <= k < product.chunks@.len() && range.0 <= (#[trigger] product.chunks@[k]).0
                < range.1;
        let wide = chunk_range(product.spec.base_z, parent);
        assert(wide.0 <= product.chunks@[k].0 < wide.1);
        assert(reaches(products[i], parent));
    }
}

/// The pyramid below a tile holds exactly the tiles with data within it, each once: leaving out
/// everything below a tile without data loses nothing.
pub proof fn law_pyramid_is_complete(
    products: Seq<PreparedProduct>,
    zxy: Zxy,
    min_zoom: u8,
    max_zoom: u8,
)
    requires
        are_searchable(products),
        is_tile(zxy),
        zxy.0 <= max_zoom <= 31,
    ensures
        forall|tile: Zxy|
            #![trigger pyramid(products, zxy, min_zoom, max_zoom).contains(tile)]
            pyramid(products, zxy, min_zoom, max_zoom).contains(tile) <==> {
                &&& is_tile(tile)
                &&& min_zoom <= tile.0 <= max_zoom
                &&& within(tile, zxy)
                &&& any_reaches(products, tile)
            },
        pyramid(products, zxy, min_zoom, max_zoom).no_duplicates(),
    decreases max_zoom - zxy.0,
{
    let all = pyramid(products, zxy, min_zoom, max_zoom);
    lemma2_to64();
    assert forall|tile: Zxy| is_tile(tile) && tile.0 == zxy.0 implies (#[trigger] within(tile, zxy)
        <==> tile == zxy) by {
        assert(pow2(0) == 1);
        assert(tile.1 as int / 1 == tile.1 as int && tile.2 as int / 1 == tile.2 as int);
    }
    if !any_reaches(products, zxy) {
        assert forall|tile: Zxy|
            is_tile(tile) && within(tile, zxy) && #[trigger] any_reaches(products, tile) implies false by {
            lemma_data_nests(products, zxy, tile);
        }
    } else {
        let here = if zxy.0 >= min_zoom {
            seq![zxy]
        } else {
            Seq::empty()
        };
        if zxy.0 < max_zoom {
            let p0 = pyramid(products, child(zxy, 0), min_zoom, max_zoom);
            let p1 = pyramid(products, child(zxy, 1), min_zoom, max_zoom);
            let p2 = pyramid(products, child(zxy, 2), min_zoom, max_zoom);
            let p3 = pyramid(products, child(zxy, 3), min_zoom, max_zoom);
            lemma_child(zxy, 0);
            lemma_child(zxy, 1);
            lemma_child(zxy, 2);
            lemma_child(zxy, 3);
            law_pyramid_is_complete(products, child(zxy, 0), min_zoom, max_zoom);
            law_pyramid_is_complete(products, child(zxy, 1), min_zoom, max_zoom);
            law_pyramid_is_complete(products, child(zxy, 2), min_zoom, max_zoom);
            law_pyramid_is_complete(products, child(zxy, 3), min_zoom, max_zoom);
            assert forall|tile: Zxy| #[trigger] all.contains(tile) <==> {
                &&& is_tile(tile)
                &&& min_zoom <= tile.0 <= max_zoom
                &&& within(tile, zxy)
                &&& any_reaches(products, tile)
            } by {
                lemma_five(here, p0, p1, p2, p3, tile);
                if is_tile(tile) && tile.0 > zxy.0 {
                    lemma_within_child(tile, zxy);
                    if within(tile, zxy) {
                        let n = choose|n: int| 0 <= n < 4 && within(tile, #[trigger] child(zxy, n));
                        assert(n == 0 || n == 1 || n == 2 || n == 3);
                    }
                }
                if here.contains(tile) {
                    assert(tile == zxy);
                }
                if tile == zxy && zxy.0 >= min_zoom {
                    assert(here[0] == zxy);
                }
            }
            assert(all.no_duplicates()) by {
                lemma_apart(here, p0, p1, p2, p3, zxy);
            }
        } else {
            assert(all == here);
            assert forall|tile: Zxy| #[trigger] all.contains(tile) <==> {
                &&& is_tile(tile)
                &&& min_zoom <= tile.0 <= max_zoom
                &&& within(tile, zxy)
                &&& any_reaches(products, tile)
            } by {
                if tile == zxy && zxy.0 >= min_zoom {
                    assert(here[0] == zxy);
                }
            }
        }
    }
}

proof fn lemma_five<T>(a: Seq<T>, b: Seq<T>, c: Seq<T>, d: Seq<T>, e: Seq<T>, x: T)
    ensures
        (a + b + c + d + e).contains(x) <==> a.contains(x) || b.contains(x) || c.contains(x)
            || d.contains(x) || e.contains(x),
{
    lemma_joined_contains(a, b, x);
    lemma_joined_contains(a + b, c, x);
    lemma_joined_contains(a + b + c, d, x);
    lemma_joined_contains(a + b + c + d, e, x);
}

proof fn lemma_two_apart<T>(a: Seq<T>, b: Seq<T>)
    requires
        a.no_duplicates(),
        b.no_duplicates(),
        forall|x: T| #[trigger] a.contains(x) ==> !b.contains(x),
    ensures
        (a + b).no_duplicates(),
{
    let all = a + b;
    assert forall|i: int, j: int| 0 <= i < all.len() && 0 <= j < all.len() && i != j implies all[i]
        != all[j] by {
        if i < a.len() {
            assert(a.contains(a[i]));
        } else {
            assert(b.contains(b[i - a.len()]));
        }
        if j < a.len() {
            assert(a.contains(a[j]));
        } else {
            assert(b.contains(b[j - a.len()]));
        }
    }
}

/// The tiles at a tile and below its four children are all different.
proof fn lemma_apart(
    here: Seq<Zxy>,
    p0: Seq<Zxy>,
    p1: Seq<Zxy>,
    p2: Seq<Zxy>,
    p3: Seq<Zxy>,
    zxy: Zxy,
)
    requires
        is_tile(zxy),
        zxy.0 < 31,
        here == seq![zxy] || here == Seq::<Zxy>::empty(),
        p0.no_duplicates(),
        p1.no_duplicates(),
        p2.no_duplicates(),
        p3.no_duplicates(),
        forall|tile: Zxy| #[trigger]
            p0.contains(tile) ==> is_tile(tile) && within(tile, child(zxy, 0)),
        forall|tile: Zxy| #[trigger]
            p1.contains(tile) ==> is_tile(tile) && within(tile, child(zxy, 1)),
        forall|tile: Zxy| #[trigger]
            p2.contains(tile) ==> is_tile(tile) && within(tile, child(zxy, 2)),
        forall|tile: Zxy| #[trigger]
            p3.contains(tile) ==> is_tile(tile) && within(tile, child(zxy, 3)),
    ensures
        (here + p0 + p1 + p2 + p3).no_duplicates(),
{
    lemma_child(zxy, 0);
    lemma_child(zxy, 1);
    lemma_child(zxy, 2);
    lemma_child(zxy, 3);
    assert forall|x: Zxy| #[trigger] here.contains(x) implies !p0.contains(x) && !p1.contains(x)
        && !p2.contains(x) && !p3.contains(x) by {
        assert(x == zxy);
    }
    assert forall|x: Zxy| #[trigger] p0.contains(x) implies !p1.contains(x) && !p2.contains(x)
        && !p3.contains(x) by {
        lemma_within_child(x, zxy);
    }
    assert forall|x: Zxy| #[trigger] p1.contains(x) implies !p2.contains(x) && !p3.contains(x) by {
        lemma_within_child(x, zxy);
    }
    assert forall|x: Zxy| #[trigger] p2.contains(x) implies !p3.contains(x) by {
        lemma_within_child(x, zxy);
    }
    lemma_two_apart(here, p0);
    assert forall|x: Zxy| #[trigger] (here + p0).contains(x) implies !p1.contains(x) by {
        lemma_joined_contains(here, p0, x);
    }
    lemma_two_apart(here + p0, p1);
    assert forall|x: Zxy| #[trigger] (here + p0 + p1).contains(x) implies !p2.contains(x) by {
        lemma_joined_contains(here, p0, x);
        lemma_joined_contains(here + p0, p1, x);
    }
    lemma_two_apart(here + p0 + p1, p2);
    assert forall|x: Zxy| #[trigger] (here + p0 + p1 + p2).contains(x) implies !p3.contains(x) by {
        lemma_joined_contains(here, p0, x);
        lemma_joined_contains(here + p0, p1, x);
        lemma_joined_contains(here + p0 + p1, p2, x);
    }
    lemma_two_apart(here + p0 + p1 + p2, p3);
}

proof fn lemma_regrouped<T>(
    start: Seq<T>,
    a: Seq<T>,
    b: Seq<T>,
    c: Seq<T>,
    d: Seq<T>,
    e: Seq<T>,
)
    ensures
        start + a + b + c + d + e == start + (a + b + c + d + e),
{
    assert(start + a + b + c + d + e =~= start + (a + b + c + d + e));
}

/// Appends the tiles with data among a tile and those below it.
pub fn traverse_tile_pyramid(
    zxy: Zxy,
    products: &Vec<PreparedProduct>,
    min_zoom: u8,
    max_zoom: u8,
    found: &mut Vec<Zxy>,
) -> (any: bool)
    requires
        are_searchable(products@),
        is_tile(zxy),
        max_zoom <= 31,
    ensures
        any == any_reaches(products@, zxy),
        final(found)@ == old(found)@ + pyramid(products@, zxy, min_zoom, max_zoom),
    decreases max_zoom - zxy.0,
{
    if !has_source_data(products, zxy) {
        proof {
            assert(found@ + Seq::<Zxy>::empty() =~= found@);
        }
        return false;
    }
    let (z, x, y) = zxy;
    let ghost start = found@;
    let ghost here = if z >= min_zoom {
        seq![zxy]
    } else {
        Seq::empty()
    };
    if z >= min_zoom {
        found.push(zxy);
    }
    proof {
        assert(found@ =~= start + here);
    }
    if z < max_zoom {
        proof {
            lemma_child(zxy, 0);
            lemma_child(zxy, 1);
            lemma_child(zxy, 2);
            lemma_child(zxy, 3);
        }
        let ghost p0 = pyramid(products@, child(zxy, 0), min_zoom, max_zoom);
        let ghost p1 = pyramid(products@, child(zxy, 1), min_zoom, max_zoom);
        let ghost p2 = pyramid(products@, child(zxy, 2), min_zoom, max_zoom);
        let ghost p3 = pyramid(products@, child(zxy, 3), min_zoom, max_zoom);
        traverse_tile_pyramid((z + 1, x * 2, y * 2), products, min_zoom, max_zoom, found);
        traverse_tile_pyramid((z + 1, x * 2 + 1, y * 2), products, min_zoom, max_zoom, found);
        traverse_tile_pyramid((z + 1, x * 2, y * 2 + 1), products, min_zoom, max_zoom, found);
        traverse_tile_pyramid((z + 1, x * 2 + 1, y * 2 + 1), products, min_zoom, max_zoom, found);
        proof {
            assert(found@ == start + here + p0 + p1 + p2 + p3);
            lemma_regrouped(start, here, p0, p1, p2, p3);
        }
    }
    true
}

/// The tiles of an archive.
pub fn tiles_with_data(products: &Vec<PreparedProduct>, min_zoom: u8, max_zoom: u8) -> (tiles: Vec<
    Zxy,
>)
    requires
        are_searchable(products@),
        max_zoom <= 31,
    ensures
        forall|tile: Zxy|
            #![trigger tiles@.contains(tile)]
            tiles@.contains(tile) <==> {
                &&& is_tile(tile)
                &&& min_zoom <= tile.0 <= max_zoom
                &&& any_reaches(products@, tile)
            },
        tiles@.no_duplicates(),
{
    let mut tiles: Vec<Zxy> = Vec::new();
    let root: Zxy = (0, 0, 0);
    proof {
        lemma2_to64();
        assert(is_tile(root));
    }
    traverse_tile_pyramid(root, products, min_zoom, max_zoom, &mut tiles);
    proof {
        law_pyramid_is_complete(products@, root, min_zoom, max_zoom);
        assert(tiles@ =~= pyramid(products@, root, min_zoom, max_zoom));
        assert forall|tile: Zxy| is_tile(tile) implies #[trigger] within(tile, root) by {
            lemma_pow2_pos(tile.0 as nat);
            lemma_basic_div(tile.1 as int, pow2(tile.0 as nat) as int);
            lemma_basic_div(tile.2 as int, pow2(tile.0 as nat) as int);
        }
    }
    tiles
}

/// A product with a tile that overlaps a tile has data for it, and one with data for it has such a
/// tile.
pub proof fn law_data_reaches_what_it_overlaps(
    product: PreparedProduct,
    zxy: Zxy,
    i: int,
    x: int,
    y: int,
)
    requires
        product.spec.base_z <= 31,
        is_tile(zxy),
        0 <= i < product.chunks@.len(),
        in_square(product.spec.base_z as nat, x, y),
        product.chunks@[i].0 == curve(product.spec.base_z as nat, x, y),
    ensures
        overlaps(product.spec.base_z, x, y, zxy) ==> reaches(product, zxy),
        reaches(product, zxy) && product.chunks@.len() == 1 ==> overlaps(
            product.spec.base_z,
            x,
            y,
            zxy,
        ),
{
    law_range_holds_what_overlaps(product.spec.base_z, x, y, zxy);
}

/// The tile lies within another of a lower zoom.
pub open spec fn below(tile: Zxy, zxy: Zxy) -> bool {
    tile.0 > zxy.0 && within(tile, zxy)
}

/// No tile stands behind one that lies within it.
pub open spec fn from_the_top(tiles: Seq<Zxy>) -> bool {
    forall|i: int, j: int|
        0 <= i < tiles.len() && 0 <= j < tiles.len() && below(#[trigger] tiles[j], #[trigger] tiles[i])
            ==> i < j
}

proof fn lemma_joined_from_the_top(a: Seq<Zxy>, b: Seq<Zxy>)
    requires
        from_the_top(a),
        from_the_top(b),
        forall|i: int, j: int|
            0 <= i < a.len() && 0 <= j < b.len() ==> !below(#[trigger] a[i], #[trigger] b[j]),
    ensures
        from_the_top(a + b),
{
    let all = a + b;
    assert forall|i: int, j: int|
        0 <= i < all.len() && 0 <= j < all.len() && below(
            #[trigger] all[j],
            #[trigger] all[i],
        ) implies i < j by {
        if i < a.len() && j < a.len() {
            assert(below(a[j], a[i]));
        } else if i >= a.len() && j >= a.len() {
            assert(below(b[j - a.len()], b[i - a.len()]));
        } else if i >= a.len() {
            assert(!below(a[j], b[i - a.len()]));
        }
    }
}

proof fn lemma_within_both(tile: Zxy, middle: Zxy, zxy: Zxy)
    requires
        within(tile, middle),
        within(middle, zxy),
    ensures
        within(tile, zxy),
{
    let (m, n) = ((tile.0 - middle.0) as nat, (middle.0 - zxy.0) as nat);
    assert((tile.0 - zxy.0) as nat == m + n);
    lemma_pow2_pos(m);
    lemma_pow2_pos(n);
    lemma_pow2_adds(m, n);
    lemma_div_denominator(tile.1 as int, pow2(m) as int, pow2(n) as int);
    lemma_div_denominator(tile.2 as int, pow2(m) as int, pow2(n) as int);
}

proof fn lemma_parts_stay_apart(
    products: Seq<PreparedProduct>,
    zxy: Zxy,
    min_zoom: u8,
    max_zoom: u8,
    a: int,
    b: int,
    x: Zxy,
    y: Zxy,
)
    requires
        are_searchable(products),
        is_tile(zxy),
        zxy.0 < max_zoom <= 31,
        0 <= a < b < 4,
        pyramid(products, child(zxy, a), min_zoom, max_zoom).contains(x),
        pyramid(products, child(zxy, b), min_zoom, max_zoom).contains(y),
    ensures
        !below(x, y),
{
    lemma_child(zxy, a);
    lemma_child(zxy, b);
    law_pyramid_is_complete(products, child(zxy, a), min_zoom, max_zoom);
    law_pyramid_is_complete(products, child(zxy, b), min_zoom, max_zoom);
    if below(x, y) {
        lemma_within_both(x, y, child(zxy, b));
        lemma_within_child(x, zxy);
    }
}

proof fn lemma_next_part(
    products: Seq<PreparedProduct>,
    zxy: Zxy,
    min_zoom: u8,
    max_zoom: u8,
    before: Seq<Zxy>,
    n: int,
)
    requires
        are_searchable(products),
        is_tile(zxy),
        zxy.0 < max_zoom <= 31,
        0 <= n < 4,
        from_the_top(before),
        forall|x: Zxy| #[trigger]
            before.contains(x) ==> x == zxy || exists|a: int|
                0 <= a < n && #[trigger] pyramid(
                    products,
                    child(zxy, a),
                    min_zoom,
                    max_zoom,
                ).contains(x),
    ensures
        from_the_top(before + pyramid(products, child(zxy, n), min_zoom, max_zoom)),
        forall|x: Zxy| #[trigger]
            (before + pyramid(products, child(zxy, n), min_zoom, max_zoom)).contains(x) ==> x == zxy
                || exists|a: int|
                0 <= a < n + 1 && #[trigger] pyramid(
                    products,
                    child(zxy, a),
                    min_zoom,
                    max_zoom,
                ).contains(x),
    decreases max_zoom - zxy.0, 0int,
{
    let now = pyramid(products, child(zxy, n), min_zoom, max_zoom);
    lemma_child(zxy, n);
    law_tiles_come_from_the_top(products, child(zxy, n), min_zoom, max_zoom);
    law_pyramid_is_complete(products, child(zxy, n), min_zoom, max_zoom);
    assert forall|i: int, j: int| 0 <= i < before.len() && 0 <= j < now.len() implies !below(
        #[trigger] before[i],
        #[trigger] now[j],
    ) by {
        let (x, y) = (before[i], now[j]);
        assert(before.contains(x));
        assert(now.contains(y));
        if x != zxy {
            let a = choose|a: int|
                0 <= a < n && #[trigger] pyramid(
                    products,
                    child(zxy, a),
                    min_zoom,
                    max_zoom,
                ).contains(x);
            lemma_parts_stay_apart(products, zxy, min_zoom, max_zoom, a, n, x, y);
        }
    }
    lemma_joined_from_the_top(before, now);
    assert forall|x: Zxy| #[trigger] (before + now).contains(x) implies x == zxy || exists|a: int|
        0 <= a < n + 1 && #[trigger] pyramid(
            products,
            child(zxy, a),
            min_zoom,
            max_zoom,
        ).contains(x) by {
        lemma_joined_contains(before, now, x);
        if now.contains(x) {
            assert(pyramid(products, child(zxy, n), min_zoom, max_zoom).contains(x));
        }
    }
}

/// Tiles come from the top: each stands before those that lie within it.
pub proof fn law_tiles_come_from_the_top(
    products: Seq<PreparedProduct>,
    zxy: Zxy,
    min_zoom: u8,
    max_zoom: u8,
)
    requires
        are_searchable(products),
        is_tile(zxy),
        zxy.0 <= max_zoom <= 31,
    ensures
        from_the_top(pyramid(products, zxy, min_zoom, max_zoom)),
    decreases max_zoom - zxy.0, 1int,
{
    if any_reaches(products, zxy) {
        let here = if zxy.0 >= min_zoom {
            seq![zxy]
        } else {
            Seq::empty()
        };
        if zxy.0 < max_zoom {
            lemma_child(zxy, 0);
            lemma_child(zxy, 1);
            lemma_child(zxy, 2);
            lemma_child(zxy, 3);
            let a = here + pyramid(products, child(zxy, 0), min_zoom, max_zoom);
            let b = a + pyramid(products, child(zxy, 1), min_zoom, max_zoom);
            let c = b + pyramid(products, child(zxy, 2), min_zoom, max_zoom);
            lemma_next_part(products, zxy, min_zoom, max_zoom, here, 0);
            lemma_next_part(products, zxy, min_zoom, max_zoom, a, 1);
            lemma_next_part(products, zxy, min_zoom, max_zoom, b, 2);
            lemma_next_part(products, zxy, min_zoom, max_zoom, c, 3);
        }
    }
}

} // verus!
