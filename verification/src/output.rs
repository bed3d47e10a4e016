//! The tiles that are written to an archive: those of the pyramid in which some product has a
//! layer.
use crate::model::{BaseTile, PreparedProduct};
use crate::pyramid::{
    any_reaches, are_searchable, law_pyramid_is_complete, pyramid, reaches, within,
};
use crate::tile::layer::{
    law_nothing_is_shown_without_tiles, shown_cells, tiles_under, Corners,
};
use crate::tile::render::{encode_tile, gzipped, layer_views, tile_message, Layer, LayerParts};
use crate::tile::{chunk_range, is_tile, TileContext, Zxy};
use crate::vectors::lemma_kept_are_some;
use vstd::prelude::*;

verus! {

// ---------------------------------------------------------------------------
// Visits
// ---------------------------------------------------------------------------

/// The layers that there are, in their order.
pub open spec fn present(offers: Seq<Option<LayerParts>>) -> Seq<LayerParts>
    decreases offers.len(),
{
    if offers.len() == 0 {
        Seq::empty()
    } else {
        let before = present(offers.drop_last());
        match offers.last() {
            Some(layer) => before.push(layer),
            None => before,
        }
    }
}

/// Some product has a layer.
pub open spec fn offers_some(offers: Seq<Option<LayerParts>>) -> bool {
    exists|p: int| 0 <= p < offers.len() && (#[trigger] offers[p]) is Some
}

/// What the layer holds, where there is one.
pub open spec fn offer_view(offer: Option<Layer>) -> Option<LayerParts> {
    match offer {
        Some(layer) => Some(layer@),
        None => None,
    }
}

/// What the layers hold, where there are any.
pub open spec fn offer_views(offers: Seq<Option<Layer>>) -> Seq<Option<LayerParts>> {
    offers.map_values(|offer: Option<Layer>| offer_view(offer))
}

/// A tile, with the layer that each product has in it, if it has one.
pub type Visit = (Zxy, Seq<Option<LayerParts>>);

/// What was found in each tile.
pub open spec fn visit_views(visits: Seq<(Zxy, Vec<Option<Layer>>)>) -> Seq<Visit> {
    visits.map_values(|visit: (Zxy, Vec<Option<Layer>>)| (visit.0, offer_views(visit.1@)))
}

/// The bytes of each tile.
pub open spec fn tile_views(tiles: Seq<(Zxy, Vec<u8>)>) -> Seq<(Zxy, Seq<u8>)> {
    tiles.map_values(|tile: (Zxy, Vec<u8>)| (tile.0, tile.1@))
}

/// The tiles that are written, with their bytes: those with a layer, in the order of the visits.
pub open spec fn written(visits: Seq<Visit>) -> Seq<(Zxy, Seq<u8>)>
    decreases visits.len(),
{
    if visits.len() == 0 {
        Seq::empty()
    } else {
        let before = written(visits.drop_last());
        let (zxy, offers) = visits.last();
        if present(offers).len() > 0 {
            before.push((zxy, gzipped(tile_message(present(offers)))))
        } else {
            before
        }
    }
}

/// The layers that there are, in their order.
pub fn present_layers(offers: Vec<Option<Layer>>) -> (layers: Vec<Layer>)
    ensures
        layer_views(layers@) == present(offer_views(offers@)),
{
    let ghost all = offer_views(offers@);
    let ghost given = offers@;
    let mut rest = offers;
    let mut layers: Vec<Layer> = Vec::new();
    let count: usize = rest.len();
    proof {
        assert(layer_views(layers@) =~= Seq::empty());
        assert(given.skip(0) =~= given);
    }
    for i in 0..count
        invariant
            count == given.len(),
            all == offer_views(given),
            rest@ == given.skip(i as int),
            layer_views(layers@) == present(all.take(i as int)),
    {
        let ghost before = layers@;
        let offer = rest.remove(0);
        proof {
            assert(rest@ =~= given.skip(i as int + 1));
            assert(all.take(i as int + 1).drop_last() =~= all.take(i as int));
            assert(all.take(i as int + 1).last() == offer_view(offer));
        }
        if let Some(layer) = offer {
            layers.push(layer);
            proof {
                assert(layer_views(layers@) =~= layer_views(before).push(layer@));
            }
        }
    }
    proof {
        assert(all.take(count as int) =~= all);
    }
    layers
}

/// Picks the tiles to write out of those that were visited, and encodes them: a tile in which no
/// product has a layer is left out.
pub fn tiles_to_write(visits: Vec<(Zxy, Vec<Option<Layer>>)>) -> (tiles: Vec<(Zxy, Vec<u8>)>)
    ensures
        tile_views(tiles@) == written(visit_views(visits@)),
{
    let ghost all = visit_views(visits@);
    let ghost given = visits@;
    let mut rest = visits;
    let mut tiles: Vec<(Zxy, Vec<u8>)> = Vec::new();
    let count: usize = rest.len();
    proof {
        assert(tile_views(tiles@) =~= Seq::empty());
        assert(given.skip(0) =~= given);
    }
    for i in 0..count
        invariant
            count == given.len(),
            all == visit_views(given),
            rest@ == given.skip(i as int),
            tile_views(tiles@) == written(all.take(i as int)),
    {
        let ghost before = tiles@;
        let (zxy, offers) = rest.remove(0);
        proof {
            assert(rest@ =~= given.skip(i as int + 1));
            assert(all.take(i as int + 1).drop_last() =~= all.take(i as int));
            assert(all.take(i as int + 1).last() == (zxy, offer_views(offers@)));
        }
        let layers = present_layers(offers);
        if let Some(bytes) = encode_tile(layers) {
            tiles.push((zxy, bytes));
            proof {
                assert(tile_views(tiles@) =~= tile_views(before).push((zxy, bytes@)));
            }
        }
    }
    proof {
        assert(all.take(count as int) =~= all);
    }
    tiles
}

// ---------------------------------------------------------------------------
// Laws
// ---------------------------------------------------------------------------

/// Tiles can be taken up in any number of parts: what is written of two parts together is what is
/// written of each.
pub proof fn law_parts_are_written_alike(a: Seq<Visit>, b: Seq<Visit>)
    ensures
        written(a + b) == written(a) + written(b),
    decreases b.len(),
{
    if b.len() == 0 {
        assert(a + b =~= a);
        assert(written(a) + written(b) =~= written(a));
    } else {
        law_parts_are_written_alike(a, b.drop_last());
        assert((a + b).drop_last() =~= a + b.drop_last());
        assert(written(a + b) =~= written(a) + written(b));
    }
}

proof fn lemma_present(offers: Seq<Option<LayerParts>>)
    ensures
        present(offers).len() > 0 <==> offers_some(offers),
    decreases offers.len(),
{
    if offers.len() > 0 {
        let rest = offers.drop_last();
        lemma_present(rest);
        if offers_some(rest) {
            let p = choose|p: int| 0 <= p < rest.len() && (#[trigger] rest[p]) is Some;
            assert(offers[p] is Some);
        }
        if offers_some(offers) && offers.last() is None {
            let p = choose|p: int| 0 <= p < offers.len() && (#[trigger] offers[p]) is Some;
            assert(rest[p] is Some);
        }
        if offers.last() is Some {
            assert(offers[offers.len() - 1] is Some);
        }
    }
}

/// The product has a cell to show in the tile, wherever the sides of the cells lie.
pub open spec fn can_show(product: PreparedProduct, zxy: Zxy) -> bool {
    exists|context: TileContext, maximum_detail_zoom: u8, corners: Seq<Vec<Corners>>|
        context.zxy == zxy && match #[trigger] shown_cells(
            context,
            product,
            maximum_detail_zoom,
            corners,
        ) {
            Some(cells) => cells.len() > 0,
            None => false,
        }
}

/// A product shows nothing where it has no data.
pub proof fn law_what_is_shown_has_data(product: PreparedProduct, zxy: Zxy)
    requires
        can_show(product, zxy),
    ensures
        reaches(product, zxy),
{
    let (context, maximum_detail_zoom, corners) = choose|
        context: TileContext,
        maximum_detail_zoom: u8,
        corners: Seq<Vec<Corners>>,
    |
        context.zxy == zxy && match #[trigger] shown_cells(
            context,
            product,
            maximum_detail_zoom,
            corners,
        ) {
            Some(cells) => cells.len() > 0,
            None => false,
        };
    if tiles_under(product, zxy).len() == 0 {
        law_nothing_is_shown_without_tiles(context, product, maximum_detail_zoom, corners);
    } else {
        let range = chunk_range(product.spec.base_z, zxy);
        lemma_kept_are_some(
            product.chunks@,
            |chunk: (u64, BaseTile)| range.0 <= chunk.0 < range.1,
            0,
        );
        let first = tiles_under(product, zxy)[0];
        let k = choose|k: int|
            0 <= k < product.chunks@.len() && #[trigger] product.chunks@[k] == first;
        assert(range.0 <= product.chunks@[k].0 < range.1);
    }
}

/// There is an answer of each product, and a layer only of one that has a cell to show.
pub open spec fn is_offer(
    products: Seq<PreparedProduct>,
    zxy: Zxy,
    offers: Seq<Option<LayerParts>>,
) -> bool {
    &&& offers.len() == products.len()
    &&& forall|p: int|
        0 <= p < offers.len() && (#[trigger] offers[p]) is Some ==> can_show(products[p], zxy)
}

/// The visits of some tiles.
pub open spec fn visits_of(
    tiles: Seq<Zxy>,
    offers: spec_fn(Zxy) -> Seq<Option<LayerParts>>,
) -> Seq<Visit> {
    tiles.map_values(|zxy: Zxy| (zxy, offers(zxy)))
}

/// The tile is among those with bytes.
pub open spec fn has_tile(tiles: Seq<(Zxy, Seq<u8>)>, zxy: Zxy) -> bool {
    exists|i: int| 0 <= i < tiles.len() && (#[trigger] tiles[i]).0 == zxy
}

/// No tile occurs twice.
pub open spec fn distinct_tiles(tiles: Seq<(Zxy, Seq<u8>)>) -> bool {
    forall|i: int, j: int|
        0 <= i < j < tiles.len() ==> (#[trigger] tiles[i]).0 != (#[trigger] tiles[j]).0
}

/// The bytes are those of the layers that there are.
pub open spec fn hold_their_layers(
    tiles: Seq<(Zxy, Seq<u8>)>,
    offers: spec_fn(Zxy) -> Seq<Option<LayerParts>>,
) -> bool {
    forall|i: int|
        0 <= i < tiles.len() ==> (#[trigger] tiles[i]).1 == gzipped(
            tile_message(present(offers(tiles[i].0))),
        )
}

proof fn lemma_written(tiles: Seq<Zxy>, offers: spec_fn(Zxy) -> Seq<Option<LayerParts>>)
    requires
        tiles.no_duplicates(),
    ensures
        forall|zxy: Zxy| #[trigger]
            has_tile(written(visits_of(tiles, offers)), zxy) <==> tiles.contains(zxy)
                && offers_some(offers(zxy)),
        distinct_tiles(written(visits_of(tiles, offers))),
        hold_their_layers(written(visits_of(tiles, offers)), offers),
    decreases tiles.len(),
{
    let visits = visits_of(tiles, offers);
    let all = written(visits);
    if tiles.len() > 0 {
        let rest = tiles.drop_last();
        let last = tiles.last();
        let before = written(visits_of(rest, offers));
        lemma_written(rest, offers);
        lemma_present(offers(last));
        assert(visits.drop_last() =~= visits_of(rest, offers));
        assert(visits.last() == (last, offers(last)));
        assert(!rest.contains(last)) by {
            if rest.contains(last) {
                let k = choose|k: int| 0 <= k < rest.len() && rest[k] == last;
                assert(tiles[k] == tiles[tiles.len() - 1]);
            }
        }
        assert(!has_tile(before, last));
        assert forall|zxy: Zxy| #[trigger] has_tile(all, zxy) <==> tiles.contains(zxy)
            && offers_some(offers(zxy)) by {
            assert(tiles.contains(zxy) <==> rest.contains(zxy) || zxy == last) by {
                if rest.contains(zxy) {
                    let k = choose|k: int| 0 <= k < rest.len() && rest[k] == zxy;
                    assert(tiles[k] == zxy);
                }
                if zxy == last {
                    assert(tiles[tiles.len() - 1] == zxy);
                }
                if tiles.contains(zxy) {
                    let k = choose|k: int| 0 <= k < tiles.len() && tiles[k] == zxy;
                    if k < rest.len() {
                        assert(rest[k] == zxy);
                    }
                }
            }
            assert(has_tile(before, zxy) <==> rest.contains(zxy) && offers_some(offers(zxy)));
            if has_tile(before, zxy) {
                let k = choose|k: int| 0 <= k < before.len() && (#[trigger] before[k]).0 == zxy;
                assert(all[k] == before[k]);
            }
            if has_tile(all, zxy) {
                let k = choose|k: int| 0 <= k < all.len() && (#[trigger] all[k]).0 == zxy;
                if k < before.len() {
                    assert(before[k].0 == zxy);
                }
            }
            if zxy == last && offers_some(offers(last)) {
                assert(all[before.len() as int].0 == zxy);
            }
        }
        assert forall|i: int, j: int| 0 <= i < j < all.len() implies (#[trigger] all[i]).0 != (
        #[trigger] all[j]).0 by {
            assert(all[i] == before[i]);
            if j < before.len() {
                assert(all[j] == before[j]);
            } else {
                assert(all[j].0 == last);
                assert(before[i].0 != last);
            }
        }
        assert forall|i: int| 0 <= i < all.len() implies (#[trigger] all[i]).1 == gzipped(
            tile_message(present(offers(all[i].0))),
        ) by {
            if i < before.len() {
                assert(all[i] == before[i]);
            }
        }
    } else {
        assert forall|zxy: Zxy| #[trigger] has_tile(all, zxy) <==> tiles.contains(zxy)
            && offers_some(offers(zxy)) by {}
    }
}

/// Of a tile and those below it, exactly those at the zooms asked for in which some product has a
/// layer are written, each once and with all its layers. Where no product has data in the tile,
/// nothing is written.
///
/// `offers` says which layer each product has in a tile.
pub proof fn law_tiles_with_layers_are_written(
    products: Seq<PreparedProduct>,
    zxy: Zxy,
    min_zoom: u8,
    max_zoom: u8,
    offers: spec_fn(Zxy) -> Seq<Option<LayerParts>>,
)
    requires
        are_searchable(products),
        is_tile(zxy),
        zxy.0 <= max_zoom <= 31,
        forall|tile: Zxy| is_tile(tile) ==> #[trigger] is_offer(products, tile, offers(tile)),
    ensures
        ({
            let tiles = written(
                visits_of(pyramid(products, zxy, min_zoom, max_zoom), offers),
            );
            &&& forall|tile: Zxy| #[trigger]
                has_tile(tiles, tile) <==> {
                    &&& is_tile(tile)
                    &&& min_zoom <= tile.0 <= max_zoom
                    &&& within(tile, zxy)
                    &&& offers_some(offers(tile))
                }
            &&& distinct_tiles(tiles)
            &&& hold_their_layers(tiles, offers)
            &&& !any_reaches(products, zxy) ==> tiles.len() == 0
        }),
{
    let visited = pyramid(products, zxy, min_zoom, max_zoom);
    let tiles = written(visits_of(visited, offers));
    law_pyramid_is_complete(products, zxy, min_zoom, max_zoom);
    lemma_written(visited, offers);
    assert forall|tile: Zxy| #[trigger] has_tile(tiles, tile) <==> {
        &&& is_tile(tile)
        &&& min_zoom <= tile.0 <= max_zoom
        &&& within(tile, zxy)
        &&& offers_some(offers(tile))
    } by {
        if is_tile(tile) && offers_some(offers(tile)) {
            assert(is_offer(products, tile, offers(tile)));
            let p = choose|p: int|
                0 <= p < offers(tile).len() && (#[trigger] offers(tile)[p]) is Some;
            law_what_is_shown_has_data(products[p], tile);
            assert(any_reaches(products, tile));
        }
        assert(visited.contains(tile) <==> {
            &&& is_tile(tile)
            &&& min_zoom <= tile.0 <= max_zoom
            &&& within(tile, zxy)
            &&& any_reaches(products, tile)
        });
    }
    if !any_reaches(products, zxy) {
        assert(visited.len() == 0);
        assert(visits_of(visited, offers).len() == 0);
    }
}

/// The layers of a tile are those that products have in it, in the order of the products, and
/// nothing takes the place of a missing one.
pub proof fn law_layers_come_in_the_order_of_products(
    first: Seq<Option<LayerParts>>,
    then: Seq<Option<LayerParts>>,
    layer: LayerParts,
)
    ensures
        present(first + then) == present(first) + present(then),
        present(seq![Some(layer)]) == seq![layer],
        present(seq![None]) == Seq::<LayerParts>::empty(),
        present(Seq::empty()) == Seq::<LayerParts>::empty(),
{
    lemma_present_parts(first, then);
    assert(seq![Some(layer)].drop_last() =~= Seq::empty());
    assert(seq![None::<LayerParts>].drop_last() =~= Seq::empty());
    assert(present(Seq::empty()).push(layer) =~= seq![layer]);
}

proof fn lemma_present_parts(first: Seq<Option<LayerParts>>, then: Seq<Option<LayerParts>>)
    ensures
        present(first + then) == present(first) + present(then),
    decreases then.len(),
{
    if then.len() == 0 {
        assert(first + then =~= first);
        assert(present(first) + present(then) =~= present(first));
    } else {
        lemma_present_parts(first, then.drop_last());
        assert((first + then).drop_last() =~= first + then.drop_last());
        assert(present(first + then) =~= present(first) + present(then));
    }
}

} // verus!
