//! Cutting the data of a product into tiles at the base zoom.
use crate::hilbert::{
    curve, in_square, law_positions_differ, law_positions_fit, xy_to_hilbert,
};
use crate::model::{Band, BandSpec, BaseTile, CompactOptI32, PreparedProduct, TilesetSpec};
use crate::number::{at_most, equal, max_of, min_of, Number};
use crate::omit::{all_omissions, no_omits, Omission};
use crate::products::{GpvProductIdentifier, PointValue};
use crate::quantize::{all_classes, no_quantize, Classes};
use crate::tile::points::plain;
use crate::tile::shifted;
use crate::vectors::{
    lemma_joined_contains, lemma_kept_are_some, lemma_kept_has, lemma_kept_in_order,
};
use rayon::slice::ParallelSliceMut;
use std::collections::HashMap;
use vstd::arithmetic::div_mod::*;
use vstd::arithmetic::power2::*;
use vstd::prelude::*;
use vstd::seq_lib::*;

verus! {

// ---------------------------------------------------------------------------
// Things with a position
// ---------------------------------------------------------------------------

/// Something with a position along a curve.
pub trait Positioned {
    /// The position.
    spec fn position(&self) -> u64;

    /// The position.
    fn position_along(&self) -> (position: u64)
        ensures
            position == self.position(),
    ;
}

impl Positioned for PointValue {
    open spec fn position(&self) -> u64 {
        self.point_id as u64
    }

    fn position_along(&self) -> (position: u64) {
        self.point_id as u64
    }
}

impl Positioned for (u64, BaseTile) {
    open spec fn position(&self) -> u64 {
        self.0
    }

    fn position_along(&self) -> (position: u64) {
        self.0
    }
}

/// Calls `rayon::slice::ParallelSliceMut::par_sort_unstable_by_key`: puts items in the order of
/// their positions. In what order items with one position come is left open.
#[verifier::external_body]
fn sort_by_position<T: Positioned + Send>(items: &mut Vec<T>)
    ensures
        forall|i: int, j: int|
            0 <= i <= j < final(items)@.len() ==> (#[trigger] final(items)@[i]).position() <= (
            #[trigger] final(items)@[j]).position(),
        final(items)@.to_multiset() == old(items)@.to_multiset(),
{
    items.par_sort_unstable_by_key(|item| item.position_along());
}

// ---------------------------------------------------------------------------
// Sites: the values of all bands in one cell
// ---------------------------------------------------------------------------

/// A cell with the values of its bands.
#[derive(Clone, Copy, Debug, PartialEq, Eq)]
pub struct Site {
    pub x: u16,
    pub y: u16,
    pub point_id: u32,
    pub point_power: u8,
    pub values: [CompactOptI32; 4],
}

/// A cell with the values of its bands as integers.
#[verifier::ext_equal]
pub struct SiteView {
    pub x: u16,
    pub y: u16,
    pub point_id: u32,
    pub point_power: u8,
    pub values: Seq<Option<int>>,
}

impl View for Site {
    type V = SiteView;

    open spec fn view(&self) -> SiteView {
        SiteView {
            x: self.x,
            y: self.y,
            point_id: self.point_id,
            point_power: self.point_power,
            values: Seq::new(4, |b: int| plain(self.values@[b])),
        }
    }
}

/// The point with its position along the curve through the grid.
pub open spec fn located(point: PointValue) -> PointValue {
    PointValue { point_id: curve(16, point.x as int, point.y as int) as u32, ..point }
}

/// The points with their positions.
pub open spec fn all_located(points: Seq<PointValue>) -> Seq<PointValue> {
    points.map_values(|point: PointValue| located(point))
}

/// The points stand in the order of their positions.
pub open spec fn in_position_order(points: Seq<PointValue>) -> bool {
    forall|i: int, j: int|
        0 <= i <= j < points.len() ==> (#[trigger] points[i]).point_id <= (
        #[trigger] points[j]).point_id
}

/// The sites with one more point: a point at the place of the last site sets a band of it, any
/// other opens a new site, whose other bands are zero.
pub open spec fn with_point(sites: Seq<SiteView>, point: PointValue) -> Seq<SiteView> {
    let value = Some(point.value as int);
    if sites.len() > 0 && sites.last().point_id == point.point_id {
        let site = sites.last();
        sites.update(
            sites.len() - 1,
            SiteView { values: site.values.update(point.band_idx as int, value), ..site },
        )
    } else {
        sites.push(
            SiteView {
                x: point.x,
                y: point.y,
                point_id: point.point_id,
                point_power: point.point_power,
                values: Seq::new(4, |b: int| Some(0int)).update(point.band_idx as int, value),
            },
        )
    }
}

/// The sites of the first `n` points.
pub open spec fn sites_of(points: Seq<PointValue>, n: nat) -> Seq<SiteView>
    decreases n,
{
    if n == 0 {
        Seq::empty()
    } else {
        with_point(sites_of(points, (n - 1) as nat), points[n - 1])
    }
}

/// The sites as views.
pub open spec fn site_views(sites: Seq<Site>) -> Seq<SiteView> {
    sites.map_values(|site: Site| site@)
}

/// The points can become sites: their bands are among the first four, and no value is missing.
pub open spec fn are_placeable(points: Seq<PointValue>) -> bool {
    forall|i: int|
        0 <= i < points.len() ==> (#[trigger] points[i]).band_idx < 4 && points[i].value != i32::MIN
}

/// Gives every point its position along the curve through the grid.
fn locate_points(points: Vec<PointValue>) -> (result: Vec<PointValue>)
    ensures
        result@ == all_located(points@),
{
    let mut result: Vec<PointValue> = Vec::new();
    for i in 0..points.len()
        invariant
            result@ == all_located(points@).take(i as int),
    {
        let point = points[i];
        proof {
            lemma2_to64();
            lemma2_to64_rest();
        }
        let point_id: u32 = xy_to_hilbert(16, point.x as u32, point.y as u32) as u32;
        result.push(PointValue { point_id, ..point });
        proof {
            let all = all_located(points@);
            assert(all.take(i as int + 1) =~= all.take(i as int).push(all[i as int]));
        }
    }
    proof {
        let all = all_located(points@);
        assert(all.take(all.len() as int) =~= all);
    }
    result
}

/// Brings points in the order of their positions together into sites.
pub fn group_sites(points: &Vec<PointValue>) -> (sites: Vec<Site>)
    requires
        are_placeable(points@),
    ensures
        site_views(sites@) == sites_of(points@, points@.len()),
{
    let mut sites: Vec<Site> = Vec::new();
    proof {
        assert(site_views(sites@) =~= Seq::empty());
    }
    for i in 0..points.len()
        invariant
            are_placeable(points@),
            site_views(sites@) == sites_of(points@, i as nat),
    {
        let point = points[i];
        let ghost before = sites@;
        let count: usize = sites.len();
        let value = CompactOptI32::new(Some(point.value));
        let band: usize = point.band_idx as usize;
        proof {
            if count > 0 {
                assert(site_views(before).last() == before[count - 1]@);
            }
        }
        if count > 0 && sites[count - 1].point_id == point.point_id {
            let mut site = sites[count - 1];
            site.values[band] = value;
            proof {
                assert(site@.values =~= before[count - 1]@.values.update(
                    band as int,
                    Some(point.value as int),
                ));
            }
            sites.set(count - 1, site);
            proof {
                assert(site_views(sites@) =~= with_point(site_views(before), point));
            }
        } else {
            let zero = CompactOptI32::new(Some(0));
            let mut values = [zero, zero, zero, zero];
            values[band] = value;
            let site = Site {
                x: point.x,
                y: point.y,
                point_id: point.point_id,
                point_power: point.point_power,
                values,
            };
            proof {
                assert(site@.values =~= Seq::new(4, |b: int| Some(0int)).update(
                    band as int,
                    Some(point.value as int),
                ));
            }
            sites.push(site);
            proof {
                assert(site_views(sites@) =~= with_point(site_views(before), point));
            }
        }
    }
    sites
}

/// The sites are those of points, in some order of equal positions.
pub open spec fn are_sites_of(points: Seq<PointValue>, sites: Seq<Site>) -> bool {
    exists|sorted: Seq<PointValue>|
        {
            &&& in_position_order(sorted)
            &&& sorted.to_multiset() == all_located(points).to_multiset()
            &&& site_views(sites) == #[trigger] sites_of(sorted, sorted.len())
        }
}

/// Brings the values of all bands together, cell by cell, in the order of the curve through the
/// grid. Where a band has several values in one cell, one of them counts.
pub fn make_sites(points: Vec<PointValue>) -> (sites: Vec<Site>)
    requires
        are_placeable(points@),
    ensures
        exists|sorted: Seq<PointValue>|
            {
                &&& in_position_order(sorted)
                &&& sorted.to_multiset() == all_located(points@).to_multiset()
                &&& site_views(sites@) == #[trigger] sites_of(sorted, sorted.len())
            },
        are_sites_of(points@, sites@),
{
    let ghost start = all_located(points@);
    let mut located = locate_points(points);
    sort_by_position(&mut located);
    proof {
        assert forall|i: int, j: int| 0 <= i <= j < located@.len() implies (
        #[trigger] located@[i]).point_id <= (#[trigger] located@[j]).point_id by {
            assert(located@[i].position() <= located@[j].position());
        }
    }
    proof {
        broadcast use group_to_multiset_ensures;

        assert forall|i: int| 0 <= i < located@.len() implies (#[trigger] located@[i]).band_idx < 4
            && located@[i].value != i32::MIN by {
            assert(located@.contains(located@[i]));
            assert(located@.to_multiset().count(located@[i]) > 0);
            assert(start.to_multiset().count(located@[i]) > 0);
            assert(start.contains(located@[i]));
            let k = choose|k: int| 0 <= k < start.len() && start[k] == located@[i];
            assert(start[k] == crate::prepare::located(points@[k]));
        }
    }
    group_sites(&located)
}

// ---------------------------------------------------------------------------
// Which tiles a site lies in
// ---------------------------------------------------------------------------

/// The columns and rows of tiles that a site reaches, its margin included. Columns may lie beyond
/// the edge of the world, and rows beyond the poles.
#[derive(Clone, Copy, Debug, PartialEq, Eq, Structural)]
pub struct Footprint {
    pub x1: i32,
    pub x2: i32,
    pub y1: i32,
    pub y2: i32,
}

/// Where a site lies: its corners in degrees, and the tiles that it reaches if it can be drawn.
#[derive(Clone, Copy, Debug)]
pub struct SitePlace {
    pub lng1: Number,
    pub lng2: Number,
    pub lat1: Number,
    pub lat2: Number,
    pub footprint: Option<Footprint>,
}

/// The number of integers from one to another.
pub open spec fn span(first: int, last: int) -> nat {
    if last < first {
        0
    } else {
        (last - first + 1) as nat
    }
}

/// The tiles of a column that lie in the first `n` rows from a row on, as far as they exist.
pub open spec fn column_tiles(x: int, y1: int, side: int, n: nat) -> Seq<(u32, u32)>
    decreases n,
{
    if n == 0 {
        Seq::empty()
    } else {
        let before = column_tiles(x, y1, side, (n - 1) as nat);
        let y = y1 + n - 1;
        if 0 <= y < side {
            before.push(((x % side) as u32, y as u32))
        } else {
            before
        }
    }
}

/// The tiles in the first `n` columns of a footprint. Columns beyond the edge of the world come
/// round.
pub open spec fn footprint_tiles(footprint: Footprint, side: int, n: nat) -> Seq<(u32, u32)>
    decreases n,
{
    if n == 0 {
        Seq::empty()
    } else {
        footprint_tiles(footprint, side, (n - 1) as nat) + column_tiles(
            footprint.x1 + n - 1,
            footprint.y1 as int,
            side,
            span(footprint.y1 as int, footprint.y2 as int),
        )
    }
}

/// The tiles that a site lies in.
pub open spec fn tiles_of(place: SitePlace, side: int) -> Seq<(u32, u32)> {
    match place.footprint {
        None => Seq::empty(),
        Some(footprint) => footprint_tiles(
            footprint,
            side,
            span(footprint.x1 as int, footprint.x2 as int),
        ),
    }
}

/// A tile is among those of a footprint exactly where some column of the footprint comes round to
/// its column, and its row is a row of the footprint.
pub proof fn law_footprint_tiles(footprint: Footprint, side: int, n: nat, tile: (u32, u32))
    requires
        0 < side <= 0x4000_0000,
    ensures
        footprint_tiles(footprint, side, n).contains(tile) <==> {
            &&& exists|x: int|
                footprint.x1 <= x < footprint.x1 + n && #[trigger] (x % side) == tile.0
            &&& footprint.y1 <= tile.1 <= footprint.y2
            &&& tile.1 < side
        },
    decreases n,
{
    let rows = span(footprint.y1 as int, footprint.y2 as int);
    if n > 0 {
        law_footprint_tiles(footprint, side, (n - 1) as nat, tile);
        let before = footprint_tiles(footprint, side, (n - 1) as nat);
        let x = footprint.x1 + n - 1;
        let now = column_tiles(x, footprint.y1 as int, side, rows);
        lemma_column_tiles(x, footprint.y1 as int, side, rows, tile);
        lemma_joined_contains(before, now, tile);
        if now.contains(tile) {
            assert(x % side == tile.0);
        }
        if exists|x: int|
            footprint.x1 <= x < footprint.x1 + n && #[trigger] (x % side) == tile.0 {
            let c = choose|x: int|
                footprint.x1 <= x < footprint.x1 + n && #[trigger] (x % side) == tile.0;
            if c < footprint.x1 + n - 1 {
                assert(footprint.x1 <= c < footprint.x1 + (n - 1) && c % side == tile.0);
            }
        }
    }
}

proof fn lemma_column_tiles(x: int, y1: int, side: int, n: nat, tile: (u32, u32))
    requires
        0 < side <= 0x4000_0000,
    ensures
        column_tiles(x, y1, side, n).contains(tile) <==> x % side == tile.0 && y1 <= tile.1 < y1 + n
            && tile.1 < side,
    decreases n,
{
    if n > 0 {
        lemma_column_tiles(x, y1, side, (n - 1) as nat, tile);
        let before = column_tiles(x, y1, side, (n - 1) as nat);
        let y = y1 + n - 1;
        lemma_mod_bound(x, side);
        if 0 <= y < side {
            let added = ((x % side) as u32, y as u32);
            let after = before.push(added);
            assert(after[before.len() as int] == added);
            if before.contains(tile) {
                let i = choose|i: int| 0 <= i < before.len() && before[i] == tile;
                assert(after[i] == tile);
            }
            if after.contains(tile) {
                let i = choose|i: int| 0 <= i < after.len() && after[i] == tile;
                if i < before.len() {
                    assert(before[i] == tile);
                }
            }
        }
    }
}

/// The remainder of a column.
fn come_round(x: i64, side: i64) -> (column: u32)
    requires
        0 < side <= 0x4000_0000,
        -0x8000_0000 <= x <= 0x7fff_ffff,
    ensures
        column == x as int % side as int,
        column < side,
{
    if x >= 0 {
        (x % side) as u32
    } else {
        // The multiple of the side that is added makes the column positive.
        let turns: i64 = 0x8000_0000 / side + 1;
        proof {
            lemma_fundamental_div_mod(0x8000_0000, side as int);
            lemma_mod_bound(0x8000_0000, side as int);
            assert(turns * side == 0x8000_0000 - 0x8000_0000int % side as int + side)
                by (nonlinear_arith)
                requires
                    turns == 0x8000_0000int / side as int + 1,
                    0x8000_0000 == side * (0x8000_0000int / side as int) + 0x8000_0000int
                        % side as int,
            ;
            lemma_mod_multiples_vanish(
                turns as int,
                x as int,
                side as int,
            );
            assert(side * turns + x == x + turns * side) by (nonlinear_arith);
        }
        ((x + turns * side) % side) as u32
    }
}

/// The tiles that a site lies in.
fn place_tiles(place: &SitePlace, side: i64) -> (tiles: Vec<(u32, u32)>)
    requires
        0 < side <= 0x4000_0000,
    ensures
        tiles@ == tiles_of(*place, side as int),
{
    let mut tiles: Vec<(u32, u32)> = Vec::new();
    if let Some(footprint) = place.footprint {
        let ghost columns = span(footprint.x1 as int, footprint.x2 as int);
        let ghost rows = span(footprint.y1 as int, footprint.y2 as int);
        let mut x: i64 = footprint.x1 as i64;
        proof {
            assert(tiles@ =~= footprint_tiles(footprint, side as int, 0));
        }
        while x <= footprint.x2 as i64
            invariant
                0 < side <= 0x4000_0000,
                footprint.x1 <= x,
                x <= footprint.x2 + 1 || x == footprint.x1,
                columns == span(footprint.x1 as int, footprint.x2 as int),
                rows == span(footprint.y1 as int, footprint.y2 as int),
                tiles@ == footprint_tiles(footprint, side as int, (x - footprint.x1) as nat),
            decreases footprint.x2 + 1 - x,
        {
            let column = come_round(x, side);
            let ghost before = tiles@;
            let mut y: i64 = footprint.y1 as i64;
            proof {
                assert(before + column_tiles(x as int, footprint.y1 as int, side as int, 0)
                    =~= before);
            }
            while y <= footprint.y2 as i64
                invariant
                    0 < side <= 0x4000_0000,
                    footprint.y1 <= y,
                    y <= footprint.y2 + 1 || y == footprint.y1,
                    column == x as int % side as int,
                    rows == span(footprint.y1 as int, footprint.y2 as int),
                    tiles@ == before + column_tiles(
                        x as int,
                        footprint.y1 as int,
                        side as int,
                        (y - footprint.y1) as nat,
                    ),
                decreases footprint.y2 + 1 - y,
            {
                let ghost so_far = column_tiles(
                    x as int,
                    footprint.y1 as int,
                    side as int,
                    (y - footprint.y1) as nat,
                );
                if 0 <= y && y < side {
                    tiles.push((column, y as u32));
                    proof {
                        assert(tiles@ =~= before + so_far.push((column, y as u32)));
                    }
                }
                y = y + 1;
            }
            proof {
                assert((y - footprint.y1) as nat == rows);
            }
            x = x + 1;
        }
        proof {
            assert((x - footprint.x1) as nat == columns);
        }
    }
    tiles
}

/// A site in a tile: the tile, and the site by its number.
pub type Visit = ((u32, u32), usize);

/// The visits of one site.
pub open spec fn visits_of(tiles: Seq<(u32, u32)>, site: int) -> Seq<Visit> {
    tiles.map_values(|tile: (u32, u32)| (tile, site as usize))
}

/// The visits of the first `n` sites.
pub open spec fn visits(places: Seq<SitePlace>, side: int, n: nat) -> Seq<Visit>
    decreases n,
{
    if n == 0 {
        Seq::empty()
    } else {
        visits(places, side, (n - 1) as nat) + visits_of(tiles_of(places[n - 1], side), n - 1)
    }
}

/// The visits to a tile.
pub open spec fn visits_tile(tile: (u32, u32)) -> spec_fn(Visit) -> bool {
    |visit: Visit| visit.0 == tile
}

/// The sites in a tile, in their order.
pub open spec fn visitors(all: Seq<Visit>, tile: (u32, u32)) -> Seq<usize> {
    all.filter(visits_tile(tile)).map_values(|visit: Visit| visit.1)
}

/// The visits of all sites.
fn all_visits(places: &Vec<SitePlace>, side: i64) -> (result: Vec<Visit>)
    requires
        0 < side <= 0x4000_0000,
    ensures
        result@ == visits(places@, side as int, places@.len()),
{
    let mut result: Vec<Visit> = Vec::new();
    for i in 0..places.len()
        invariant
            0 < side <= 0x4000_0000,
            result@ == visits(places@, side as int, i as nat),
    {
        let tiles = place_tiles(&places[i], side);
        let ghost before = result@;
        let ghost now = visits_of(tiles@, i as int);
        proof {
            assert(before + now.take(0) =~= before);
        }
        for k in 0..tiles.len()
            invariant
                0 <= i < places@.len(),
                now == visits_of(tiles@, i as int),
                result@ == before + now.take(k as int),
        {
            result.push((tiles[k], i));
            proof {
                assert(now.take(k as int + 1) =~= now.take(k as int).push(now[k as int]));
                assert(result@ =~= before + now.take(k as int + 1));
            }
        }
        proof {
            assert(now.take(now.len() as int) =~= now);
        }
    }
    result
}

proof fn lemma_visit_tiles(places: Seq<SitePlace>, side: int, n: nat, i: int)
    requires
        0 < side <= 0x4000_0000,
        0 <= i < visits(places, side, n).len(),
        n <= usize::MAX,
    ensures
        visits(places, side, n)[i].0.0 < side,
        visits(places, side, n)[i].0.1 < side,
        visits(places, side, n)[i].1 < n,
    decreases n,
{
    if n > 0 {
        let before = visits(places, side, (n - 1) as nat);
        let tiles = tiles_of(places[n - 1], side);
        if i < before.len() {
            lemma_visit_tiles(places, side, (n - 1) as nat, i);
        } else {
            let k = i - before.len();
            let tile = tiles[k];
            assert(visits(places, side, n)[i] == (tile, (n - 1) as usize));
            assert(tiles.contains(tile));
            let footprint = places[n - 1].footprint->Some_0;
            law_footprint_tiles(
                footprint,
                side,
                span(footprint.x1 as int, footprint.x2 as int),
                tile,
            );
            let x = choose|x: int|
                footprint.x1 <= x < footprint.x1 + span(
                    footprint.x1 as int,
                    footprint.x2 as int,
                ) && #[trigger] (x % side) == tile.0;
            lemma_mod_bound(x, side);
        }
    }
}

// ---------------------------------------------------------------------------
// Tiles and their sites
// ---------------------------------------------------------------------------

/// A tile and the sites in it.
struct Bucket {
    tile: (u32, u32),
    sites: Vec<usize>,
}

/// Some bucket is that of the tile.
spec fn has_bucket(buckets: Seq<Bucket>, tile: (u32, u32)) -> bool {
    exists|b: int| 0 <= b < buckets.len() && (#[trigger] buckets[b]).tile == tile
}

/// The buckets are those of the first `n` visits: one for each tile, with its visitors.
spec fn are_buckets(buckets: Seq<Bucket>, all: Seq<Visit>, n: nat) -> bool {
    &&& forall|b: int, c: int|
        0 <= b < c < buckets.len() ==> (#[trigger] buckets[b]).tile != (#[trigger] buckets[c]).tile
    &&& forall|b: int|
        0 <= b < buckets.len() ==> {
            &&& (#[trigger] buckets[b]).sites@ == visitors(all.take(n as int), buckets[b].tile)
            &&& buckets[b].sites@.len() > 0
        }
    &&& forall|tile: (u32, u32)|
        (#[trigger] visitors(all.take(n as int), tile)).len() > 0 ==> has_bucket(buckets, tile)
}

/// The number that stands for a tile.
spec fn tile_key(tile: (u32, u32)) -> int {
    tile.0 * 0x1_0000_0000 + tile.1
}

/// Under the number of a tile stands the place of its bucket.
spec fn buckets_indexed(index: Map<u64, usize>, buckets: Seq<Bucket>) -> bool {
    &&& forall|b: int|
        0 <= b < buckets.len() ==> index.contains_key(tile_key((#[trigger] buckets[b]).tile) as u64)
            && index[tile_key(buckets[b].tile) as u64] == b
    &&& forall|key: u64|
        #[trigger] index.contains_key(key) ==> index[key] < buckets.len() && tile_key(
            buckets[index[key] as int].tile,
        ) == key
}

proof fn lemma_next_visitor(all: Seq<Visit>, n: nat, tile: (u32, u32))
    requires
        n < all.len(),
    ensures
        visitors(all.take(n as int + 1), tile) == (if all[n as int].0 == tile {
            visitors(all.take(n as int), tile).push(all[n as int].1)
        } else {
            visitors(all.take(n as int), tile)
        }),
{
    let now = all.take(n as int + 1);
    assert(now.drop_last() =~= all.take(n as int));
    assert(now.last() == all[n as int]);
    reveal(Seq::filter);
    assert(visitors(now, tile) =~= if all[n as int].0 == tile {
        visitors(all.take(n as int), tile).push(all[n as int].1)
    } else {
        visitors(all.take(n as int), tile)
    });
}

proof fn lemma_bucket_step(
    before: Seq<Bucket>,
    after: Seq<Bucket>,
    all: Seq<Visit>,
    n: nat,
    place: int,
)
    requires
        n < all.len(),
        are_buckets(before, all, n),
        0 <= place < after.len(),
        after[place].tile == all[n as int].0,
        before.len() <= after.len() <= before.len() + 1,
        forall|b: int| 0 <= b < before.len() && b != place ==> after[b] == before[b],
        place < before.len() ==> after.len() == before.len() && before[place].tile
            == after[place].tile && after[place].sites@ == before[place].sites@.push(
            all[n as int].1,
        ),
        place == before.len() ==> !has_bucket(before, all[n as int].0) && after[place].sites@
            == seq![all[n as int].1],
        after.len() > before.len() ==> place == before.len(),
    ensures
        are_buckets(after, all, n + 1),
{
    let tile = all[n as int].0;
    assert forall|b: int, c: int| 0 <= b < c < after.len() implies (#[trigger] after[b]).tile != (
    #[trigger] after[c]).tile by {
        if c < before.len() {
            assert(before[b].tile != before[c].tile);
        } else {
            assert(before[b].tile != tile);
        }
    }
    assert forall|b: int| 0 <= b < after.len() implies (#[trigger] after[b]).sites@ == visitors(
        all.take(n as int + 1),
        after[b].tile,
    ) && after[b].sites@.len() > 0 by {
        lemma_next_visitor(all, n, after[b].tile);
        if b < before.len() {
            assert(before[b].sites@ == visitors(all.take(n as int), before[b].tile));
            if b != place {
                assert(before[b].tile != tile) by {
                    if place < before.len() {
                        if b < place {
                            assert(before[b].tile != before[place].tile);
                        } else {
                            assert(before[place].tile != before[b].tile);
                        }
                    } else {
                        assert(!has_bucket(before, tile));
                    }
                }
            }
        } else {
            assert(visitors(all.take(n as int), tile).len() == 0);
            assert(visitors(all.take(n as int), tile).push(all[n as int].1) =~= seq![
                all[n as int].1,
            ]);
        }
    }
    assert forall|t: (u32, u32)| (#[trigger] visitors(all.take((n + 1) as int), t)).len() > 0 implies has_bucket(
        after,
        t,
    ) by {
        lemma_next_visitor(all, n, t);
        if t == tile {
            assert(after[place].tile == t);
        } else {
            assert(visitors(all.take(n as int), t).len() > 0);
            let b = choose|b: int| 0 <= b < before.len() && (#[trigger] before[b]).tile == t;
            assert(after[b].tile == t);
        }
    }
}

/// Gathers the sites of each tile.
fn fill_buckets(all: &Vec<Visit>) -> (buckets: Vec<Bucket>)
    ensures
        are_buckets(buckets@, all@, all@.len()),
{
    broadcast use vstd::std_specs::hash::group_hash_axioms;

    let mut buckets: Vec<Bucket> = Vec::new();
    let mut index: HashMap<u64, usize> = HashMap::new();
    proof {
        assert forall|tile: (u32, u32)| (#[trigger] visitors(all@.take(0), tile)).len() == 0 by {
            reveal(Seq::filter);
        }
    }
    for i in 0..all.len()
        invariant
            are_buckets(buckets@, all@, i as nat),
            buckets_indexed(index@, buckets@),
    {
        broadcast use vstd::std_specs::hash::group_hash_axioms;

        let (tile, site) = all[i];
        let key: u64 = tile.0 as u64 * 0x1_0000_0000 + tile.1 as u64;
        let ghost before = buckets@;
        let place: Option<usize> = match index.get(&key) {
            Some(place) => Some(*place),
            None => None,
        };
        match place {
            Some(place) => {
                proof {
                    assert(before[place as int].tile == tile);
                }
                buckets[place].sites.push(site);
                proof {
                    assert(buckets_indexed(index@, buckets@)) by {
                        assert forall|b: int| 0 <= b < buckets@.len() implies (
                        #[trigger] buckets@[b]).tile == before[b].tile by {}
                    }
                    lemma_bucket_step(before, buckets@, all@, i as nat, place as int);
                }
            },
            None => {
                let mut sites: Vec<usize> = Vec::new();
                sites.push(site);
                let place: usize = buckets.len();
                proof {
                    assert(sites@ =~= seq![site]);
                    assert(!has_bucket(before, tile));
                }
                buckets.push(Bucket { tile, sites });
                index.insert(key, place);
                proof {
                    assert(buckets_indexed(index@, buckets@)) by {
                        assert forall|b: int| 0 <= b < buckets@.len() implies index@.contains_key(
                            tile_key((#[trigger] buckets@[b]).tile) as u64,
                        ) && index@[tile_key(buckets@[b].tile) as u64] == b by {
                            if b < before.len() {
                                assert(buckets@[b] == before[b]);
                                assert(before[b].tile != tile);
                            }
                        }
                    }
                    lemma_bucket_step(before, buckets@, all@, i as nat, place as int);
                }
            },
        }
    }
    proof {
        assert(all@.take(all@.len() as int) =~= all@);
    }
    buckets
}

/// The tile holds the sites, column by column.
pub open spec fn holds_sites(
    tile: BaseTile,
    sites: Seq<Site>,
    numbers: Seq<usize>,
    band_count: int,
) -> bool {
    &&& tile.well_formed()
    &&& tile.point_ids@ == numbers.map_values(|s: usize| sites[s as int].point_id)
    &&& tile.point_powers@ == numbers.map_values(|s: usize| sites[s as int].point_power)
    &&& tile.bands@.len() == band_count
    &&& forall|b: int|
        0 <= b < band_count ==> (#[trigger] tile.bands@[b]).values@ == numbers.map_values(
            |s: usize| sites[s as int].values@[b],
        )
}

/// Makes the columns of a tile.
fn make_tile(sites: &Vec<Site>, numbers: &Vec<usize>, band_count: usize) -> (tile: BaseTile)
    requires
        band_count <= 4,
        forall|i: int| 0 <= i < numbers@.len() ==> (#[trigger] numbers@[i]) < sites@.len(),
    ensures
        holds_sites(tile, sites@, numbers@, band_count as int),
{
    let mut point_ids: Vec<u32> = Vec::new();
    let mut point_powers: Vec<u8> = Vec::new();
    for i in 0..numbers.len()
        invariant
            forall|k: int| 0 <= k < numbers@.len() ==> (#[trigger] numbers@[k]) < sites@.len(),
            point_ids@.len() == i,
            point_powers@.len() == i,
            forall|k: int|
                0 <= k < i ==> (#[trigger] point_ids@[k]) == sites@[numbers@[k] as int].point_id,
            forall|k: int|
                0 <= k < i ==> (#[trigger] point_powers@[k])
                    == sites@[numbers@[k] as int].point_power,
    {
        let site: usize = numbers[i];
        point_ids.push(sites[site].point_id);
        point_powers.push(sites[site].point_power);
    }
    let mut bands: Vec<Band> = Vec::new();
    for b in 0..band_count
        invariant
            band_count <= 4,
            forall|k: int| 0 <= k < numbers@.len() ==> (#[trigger] numbers@[k]) < sites@.len(),
            bands@.len() == b,
            forall|c: int|
                0 <= c < b ==> (#[trigger] bands@[c]).values@ == numbers@.map_values(
                    |s: usize| sites@[s as int].values@[c],
                ),
    {
        let mut values: Vec<CompactOptI32> = Vec::new();
        for i in 0..numbers.len()
            invariant
                b < 4,
                forall|k: int| 0 <= k < numbers@.len() ==> (#[trigger] numbers@[k]) < sites@.len(),
                values@.len() == i,
                forall|k: int|
                    0 <= k < i ==> (#[trigger] values@[k])
                        == sites@[numbers@[k] as int].values@[b as int],
        {
            values.push(sites[numbers[i]].values[b]);
        }
        proof {
            assert(values@ =~= numbers@.map_values(|s: usize| sites@[s as int].values@[b as int]));
        }
        bands.push(Band { values });
    }
    proof {
        assert(point_ids@ =~= numbers@.map_values(|s: usize| sites@[s as int].point_id));
        assert(point_powers@ =~= numbers@.map_values(|s: usize| sites@[s as int].point_power));
    }
    BaseTile { point_ids, point_powers, bands }
}

/// A tile with its position along the curve through the tiles.
pub type Chunk = (u64, BaseTile);

/// The chunk is that of a tile: it has the tile's position and the sites in the tile.
pub open spec fn is_chunk_of(
    chunk: Chunk,
    tile: (u32, u32),
    sites: Seq<Site>,
    all: Seq<Visit>,
    base_z: u8,
    band_count: int,
) -> bool {
    &&& in_square(base_z as nat, tile.0 as int, tile.1 as int)
    &&& chunk.0 == curve(base_z as nat, tile.0 as int, tile.1 as int)
    &&& visitors(all, tile).len() > 0
    &&& holds_sites(chunk.1, sites, visitors(all, tile), band_count)
}

/// The chunk is that of some tile.
pub open spec fn is_some_chunk(
    chunk: Chunk,
    sites: Seq<Site>,
    all: Seq<Visit>,
    base_z: u8,
    band_count: int,
) -> bool {
    exists|tile: (u32, u32)|
        #[trigger] is_chunk_of(chunk, tile, sites, all, base_z, band_count)
}

/// Some chunk is that of the tile.
pub open spec fn has_chunk_of(
    chunks: Seq<Chunk>,
    tile: (u32, u32),
    sites: Seq<Site>,
    all: Seq<Visit>,
    base_z: u8,
    band_count: int,
) -> bool {
    exists|i: int|
        0 <= i < chunks.len() && is_chunk_of(
            #[trigger] chunks[i],
            tile,
            sites,
            all,
            base_z,
            band_count,
        )
}

/// The chunks are the tiles with sites in them, each once, in the order of their positions.
pub open spec fn are_chunks(
    chunks: Seq<Chunk>,
    sites: Seq<Site>,
    all: Seq<Visit>,
    base_z: u8,
    band_count: int,
) -> bool {
    &&& forall|i: int, j: int|
        0 <= i < j < chunks.len() ==> (#[trigger] chunks[i]).0 < (#[trigger] chunks[j]).0
    &&& forall|i: int|
        0 <= i < chunks.len() ==> is_some_chunk(
            #[trigger] chunks[i],
            sites,
            all,
            base_z,
            band_count,
        )
    &&& forall|tile: (u32, u32)|
        (#[trigger] visitors(all, tile)).len() > 0 ==> has_chunk_of(
            chunks,
            tile,
            sites,
            all,
            base_z,
            band_count,
        )
}

proof fn lemma_visitors_numbered(all: Seq<Visit>, tile: (u32, u32), i: int, count: int)
    requires
        0 <= i < visitors(all, tile).len(),
        forall|k: int| 0 <= k < all.len() ==> (#[trigger] all[k]).1 < count,
    ensures
        visitors(all, tile)[i] < count,
{
    let keep = visits_tile(tile);
    lemma_kept_are_some(all, keep, i);
}

proof fn lemma_visitors_tile(all: Seq<Visit>, tile: (u32, u32))
    requires
        visitors(all, tile).len() > 0,
    ensures
        exists|k: int| 0 <= k < all.len() && (#[trigger] all[k]).0 == tile,
{
    let keep = visits_tile(tile);
    lemma_kept_are_some(all, keep, 0);
    let k = choose|k: int| 0 <= k < all.len() && #[trigger] all[k] == all.filter(keep)[0];
    assert(all[k].0 == tile);
}

/// Cuts sites into tiles.
fn cut_tiles(sites: &Vec<Site>, places: &Vec<SitePlace>, base_z: u8, band_count: usize) -> (chunks:
    Vec<Chunk>)
    requires
        places@.len() == sites@.len(),
        base_z <= 30,
        band_count <= 4,
    ensures
        are_chunks(
            chunks@,
            sites@,
            visits(places@, pow2(base_z as nat) as int, places@.len()),
            base_z,
            band_count as int,
        ),
{
    proof {
        lemma2_to64();
        lemma_pow2_pos(base_z as nat);
        if base_z < 30 {
            lemma_pow2_strictly_increases(base_z as nat, 30);
        }
    }
    let side: i64 = shifted(base_z) as i64;
    let all = all_visits(places, side);
    proof {
        assert(places@.len() == places.len());
        assert forall|k: int| 0 <= k < all@.len() implies (#[trigger] all@[k]).1 < sites@.len()
            && all@[k].0.0 < side && all@[k].0.1 < side by {
            lemma_visit_tiles(places@, side as int, places@.len(), k);
        }
    }
    let buckets = fill_buckets(&all);
    proof {
        assert(all@.take(all@.len() as int) =~= all@);
    }
    let mut chunks: Vec<Chunk> = Vec::new();
    for b in 0..buckets.len()
        invariant
            base_z <= 30,
            band_count <= 4,
            side == pow2(base_z as nat),
            are_buckets(buckets@, all@, all@.len()),
            all@.take(all@.len() as int) == all@,
            forall|k: int|
                0 <= k < all@.len() ==> (#[trigger] all@[k]).1 < sites@.len() && all@[k].0.0 < side
                    && all@[k].0.1 < side,
            chunks@.len() == b,
            forall|k: int|
                0 <= k < b ==> is_chunk_of(
                    #[trigger] chunks@[k],
                    buckets@[k].tile,
                    sites@,
                    all@,
                    base_z,
                    band_count as int,
                ),
    {
        let bucket = &buckets[b];
        proof {
            assert(buckets@[b as int].sites@ == visitors(all@, buckets@[b as int].tile));
            assert forall|i: int| 0 <= i < bucket.sites@.len() implies (#[trigger] bucket.sites@[i])
                < sites@.len() by {
                lemma_visitors_numbered(all@, bucket.tile, i, sites@.len() as int);
            }
            lemma_visitors_tile(all@, bucket.tile);
        }
        let id = xy_to_hilbert(base_z, bucket.tile.0, bucket.tile.1);
        let tile = make_tile(sites, &bucket.sites, band_count);
        chunks.push((id, tile));
    }
    let ghost before = chunks@;
    proof {
        assert forall|i: int, j: int| 0 <= i < before.len() && 0 <= j < before.len() && i != j implies (
        #[trigger] before[i]).0 != (#[trigger] before[j]).0 by {
            let (s, t) = (buckets@[i].tile, buckets@[j].tile);
            assert(is_chunk_of(before[i], s, sites@, all@, base_z, band_count as int));
            assert(is_chunk_of(before[j], t, sites@, all@, base_z, band_count as int));
            if before[i].0 == before[j].0 {
                law_positions_differ(
                    base_z as nat,
                    s.0 as int,
                    s.1 as int,
                    t.0 as int,
                    t.1 as int,
                );
                if i < j {
                    assert(buckets@[i].tile != buckets@[j].tile);
                } else {
                    assert(buckets@[j].tile != buckets@[i].tile);
                }
            }
        }
    }
    sort_by_position(&mut chunks);
    proof {
        assert forall|i: int, j: int| 0 <= i <= j < chunks@.len() implies (#[trigger] chunks@[i]).0
            <= (#[trigger] chunks@[j]).0 by {
            assert(chunks@[i].position() <= chunks@[j].position());
        }
        lemma_sorted_chunks(before, chunks@);
        lemma_cut(before, chunks@, buckets@, sites@, all@, base_z, band_count as int);
    }
    chunks
}

proof fn lemma_cut(
    before: Seq<Chunk>,
    after: Seq<Chunk>,
    buckets: Seq<Bucket>,
    sites: Seq<Site>,
    all: Seq<Visit>,
    base_z: u8,
    band_count: int,
)
    requires
        are_buckets(buckets, all, all.len()),
        before.len() == buckets.len(),
        forall|k: int|
            0 <= k < before.len() ==> is_chunk_of(
                #[trigger] before[k],
                buckets[k].tile,
                sites,
                all,
                base_z,
                band_count,
            ),
        forall|chunk: Chunk| #[trigger] before.contains(chunk) <==> after.contains(chunk),
        forall|i: int, j: int|
            0 <= i < j < after.len() ==> (#[trigger] after[i]).0 < (#[trigger] after[j]).0,
    ensures
        are_chunks(after, sites, all, base_z, band_count),
{
    assert(all.take(all.len() as int) =~= all);
    assert forall|i: int| 0 <= i < after.len() implies is_some_chunk(
        #[trigger] after[i],
        sites,
        all,
        base_z,
        band_count,
    ) by {
        assert(after.contains(after[i]));
        assert(before.contains(after[i]));
        let k = choose|k: int| 0 <= k < before.len() && before[k] == after[i];
        assert(is_chunk_of(before[k], buckets[k].tile, sites, all, base_z, band_count));
    }
    assert forall|tile: (u32, u32)| (#[trigger] visitors(all, tile)).len() > 0 implies has_chunk_of(
        after,
        tile,
        sites,
        all,
        base_z,
        band_count,
    ) by {
        assert(has_bucket(buckets, tile));
        let b = choose|b: int| 0 <= b < buckets.len() && (#[trigger] buckets[b]).tile == tile;
        assert(is_chunk_of(before[b], tile, sites, all, base_z, band_count));
        assert(before.contains(before[b]));
        assert(after.contains(before[b]));
        let i = choose|i: int| 0 <= i < after.len() && after[i] == before[b];
        assert(is_chunk_of(after[i], tile, sites, all, base_z, band_count));
    }
}

/// Sorting chunks with different positions leaves the same chunks, in strict order.
proof fn lemma_sorted_chunks(before: Seq<Chunk>, after: Seq<Chunk>)
    requires
        before.to_multiset() == after.to_multiset(),
        forall|i: int, j: int|
            0 <= i < before.len() && 0 <= j < before.len() && i != j ==> (#[trigger] before[i]).0
                != (#[trigger] before[j]).0,
        forall|i: int, j: int|
            0 <= i <= j < after.len() ==> (#[trigger] after[i]).0 <= (#[trigger] after[j]).0,
    ensures
        forall|chunk: Chunk| #[trigger] before.contains(chunk) <==> after.contains(chunk),
        forall|i: int, j: int|
            0 <= i < j < after.len() ==> (#[trigger] after[i]).0 < (#[trigger] after[j]).0,
{
    broadcast use group_to_multiset_ensures;

    assert forall|chunk: Chunk| #[trigger] before.contains(chunk) <==> after.contains(chunk) by {
        assert(before.to_multiset().count(chunk) > 0 <==> before.contains(chunk));
        assert(after.to_multiset().count(chunk) > 0 <==> after.contains(chunk));
    }
    assert(before.no_duplicates()) by {
        assert forall|i: int, j: int|
            0 <= i < before.len() && 0 <= j < before.len() && i != j implies before[i]
            != before[j] by {
            assert(before[i].0 != before[j].0);
        }
    }
    before.lemma_multiset_has_no_duplicates();
    after.lemma_multiset_has_no_duplicates_conv();
    assert forall|i: int, j: int| 0 <= i < j < after.len() implies (#[trigger] after[i]).0 < (
    #[trigger] after[j]).0 by {
        if after[i].0 == after[j].0 {
            assert(after.contains(after[i]) && after.contains(after[j]));
            assert(before.contains(after[i]) && before.contains(after[j]));
            let a = choose|k: int| 0 <= k < before.len() && before[k] == after[i];
            let b = choose|k: int| 0 <= k < before.len() && before[k] == after[j];
            assert(before[a].0 == before[b].0);
            assert(a == b);
        }
    }
}

// ---------------------------------------------------------------------------
// Products
// ---------------------------------------------------------------------------

/// The greatest finite number.
pub open spec fn greatest_number() -> Number {
    Number { bits: 0x7fef_ffff_ffff_ffff }
}

/// The least finite number.
pub open spec fn least_number() -> Number {
    Number { bits: 0xffef_ffff_ffff_ffff }
}

/// West, south, east and north of the first `n` sites.
pub open spec fn bounds_of(places: Seq<SitePlace>, n: nat) -> Seq<Number>
    decreases n,
{
    if n == 0 {
        seq![greatest_number(), greatest_number(), least_number(), least_number()]
    } else {
        let before = bounds_of(places, (n - 1) as nat);
        let place = places[n - 1];
        seq![
            min_of(before[0], place.lng1),
            min_of(before[1], place.lat2),
            max_of(before[2], place.lng2),
            max_of(before[3], place.lat1),
        ]
    }
}

/// No side of a site lies beyond the bounds.
pub proof fn law_bounds_hold_all_sites(places: Seq<SitePlace>, n: nat, i: int)
    requires
        n <= places.len(),
        0 <= i < n,
    ensures
        !places[i].lng1.is_nan() ==> at_most(bounds_of(places, n)[0], places[i].lng1),
        !places[i].lat2.is_nan() ==> at_most(bounds_of(places, n)[1], places[i].lat2),
        !places[i].lng2.is_nan() ==> at_most(places[i].lng2, bounds_of(places, n)[2]),
        !places[i].lat1.is_nan() ==> at_most(places[i].lat1, bounds_of(places, n)[3]),
    decreases n,
{
    if i < n - 1 {
        law_bounds_hold_all_sites(places, (n - 1) as nat, i);
    }
}

/// West, south, east and north of all sites.
fn site_bounds(places: &Vec<SitePlace>) -> (bounds: [Number; 4])
    ensures
        bounds@ == bounds_of(places@, places@.len()),
{
    let mut west = Number { bits: 0x7fef_ffff_ffff_ffff };
    let mut south = Number { bits: 0x7fef_ffff_ffff_ffff };
    let mut east = Number { bits: 0xffef_ffff_ffff_ffff };
    let mut north = Number { bits: 0xffef_ffff_ffff_ffff };
    for i in 0..places.len()
        invariant
            seq![west, south, east, north] == bounds_of(places@, i as nat),
    {
        let ghost before = bounds_of(places@, i as nat);
        proof {
            assert(before[0] == west && before[1] == south && before[2] == east && before[3]
                == north);
        }
        let place = &places[i];
        west = west.min(place.lng1);
        south = south.min(place.lat2);
        east = east.max(place.lng2);
        north = north.max(place.lat1);
    }
    let bounds = [west, south, east, north];
    proof {
        assert(bounds@ =~= seq![west, south, east, north]);
    }
    bounds
}

/// The product has the name, zoom, grid and aggregation of its identifier, and the sites in the tiles
/// that they reach.
pub open spec fn is_prepared(
    product: PreparedProduct,
    product_id: GpvProductIdentifier,
    band_specs: Seq<BandSpec>,
    sites: Seq<Site>,
    places: Seq<SitePlace>,
) -> bool {
    &&& product.product_id == product_id
    &&& product.spec.name@ == product_id.path@
    &&& product.spec.base_z == product_id.kind.base_z
    &&& product.spec.grid_spec == product_id.kind.grid
    &&& product.spec.aggregation == product_id.kind.aggregation
    &&& product.spec.band_specs@ == band_specs
    &&& product.spec.bounds@ == bounds_of(places, places.len())
    &&& are_chunks(
        product.chunks@,
        sites,
        visits(places, pow2(product_id.kind.base_z as nat) as int, places.len()),
        product_id.kind.base_z,
        product_id.kind.bands@.len() as int,
    )
}

/// The sites of a product, cut into tiles.
///
/// `sites` holds the cells of the product with their values, `places` where they lie.
pub fn prepare_product(
    product_id: GpvProductIdentifier,
    band_specs: Vec<BandSpec>,
    sites: &Vec<Site>,
    places: &Vec<SitePlace>,
) -> (product: PreparedProduct)
    requires
        places@.len() == sites@.len(),
        product_id.kind.base_z <= 30,
        1 <= product_id.kind.bands@.len() <= 4,
    ensures
        product.product_id == product_id,
        product.spec.name@ == product_id.path@,
        product.spec.base_z == product_id.kind.base_z,
        product.spec.grid_spec == product_id.kind.grid,
        product.spec.aggregation == product_id.kind.aggregation,
        product.spec.band_specs == band_specs,
        all_classes(product.spec.quantize@) == Seq::new(
            band_specs@.len(),
            |b: int| None::<Classes>,
        ),
        all_omissions(product.spec.omit@) == Seq::new(
            band_specs@.len(),
            |b: int| None::<Omission>,
        ),
        product.spec.bounds@ == bounds_of(places@, places@.len()),
        are_chunks(
            product.chunks@,
            sites@,
            visits(places@, pow2(product_id.kind.base_z as nat) as int, places@.len()),
            product_id.kind.base_z,
            product_id.kind.bands@.len() as int,
        ),
        product.chunks_in_order(),
        forall|i: int|
            0 <= i < product.chunks@.len() ==> (#[trigger] product.chunks@[i]).1.well_formed(),
        is_prepared(product, product_id, band_specs@, sites@, places@),
{
    let base_z: u8 = product_id.kind.base_z;
    let band_count: usize = product_id.kind.bands.len();
    let chunks = cut_tiles(sites, places, base_z, band_count);
    let bounds = site_bounds(places);
    let spec = TilesetSpec {
        name: product_id.path.clone(),
        base_z,
        grid_spec: product_id.kind.grid,
        aggregation: product_id.kind.aggregation,
        quantize: no_quantize(band_specs.len()),
        omit: no_omits(band_specs.len()),
        band_specs,
        bounds,
    };
    let product = PreparedProduct { product_id, spec, chunks };
    proof {
        let all = visits(places@, pow2(base_z as nat) as int, places@.len());
        assert forall|i: int| 0 <= i < product.chunks@.len() implies (
        #[trigger] product.chunks@[i]).1.well_formed() by {
            assert(is_some_chunk(product.chunks@[i], sites@, all, base_z, band_count as int));
            let tile = choose|tile: (u32, u32)|
                #[trigger] is_chunk_of(
                    product.chunks@[i],
                    tile,
                    sites@,
                    all,
                    base_z,
                    band_count as int,
                );
            assert(holds_sites(
                product.chunks@[i].1,
                sites@,
                visitors(all, tile),
                band_count as int,
            ));
        }
        assert(product.chunks_in_order()) by {
            assert forall|i: int, j: int| 0 <= i <= j < product.chunks@.len() implies (
            #[trigger] product.chunks@[i]).0 <= (#[trigger] product.chunks@[j]).0 by {
                if i < j {
                    assert(product.chunks@[i].0 < product.chunks@[j].0);
                }
            }
        }
    }
    product
}

/// The sites of points in order come in strict order: no cell has two.
pub proof fn law_sites_come_in_order(points: Seq<PointValue>, n: nat)
    requires
        in_position_order(points),
        n <= points.len(),
    ensures
        forall|i: int, j: int|
            0 <= i < j < sites_of(points, n).len() ==> (#[trigger] sites_of(points, n)[i]).point_id
                < (#[trigger] sites_of(points, n)[j]).point_id,
        n > 0 ==> sites_of(points, n).len() > 0 && sites_of(points, n).last().point_id == points[n
            - 1].point_id,
    decreases n,
{
    if n > 0 {
        law_sites_come_in_order(points, (n - 1) as nat);
        let before = sites_of(points, (n - 1) as nat);
        let after = sites_of(points, n);
        let point = points[n - 1];
        if n > 1 {
            assert(points[n - 2].point_id <= point.point_id);
        }
        assert forall|i: int, j: int| 0 <= i < j < after.len() implies (#[trigger] after[i]).point_id
            < (#[trigger] after[j]).point_id by {
            if j < before.len() {
                assert(before[i].point_id < before[j].point_id);
            } else {
                assert(after[i] == before[i]);
                let last = before[before.len() - 1];
                if i < before.len() - 1 {
                    assert(before[i].point_id < before[before.len() - 1].point_id);
                }
            }
        }
    }
}

/// Where the sites come in order, so do the visitors of every tile: cells that are neighbours on
/// the curve stay neighbours in the tile.
pub proof fn law_tiles_keep_the_order(
    places: Seq<SitePlace>,
    side: int,
    n: nat,
    tile: (u32, u32),
    i: int,
    j: int,
)
    requires
        n <= usize::MAX,
        0 <= i <= j < visitors(visits(places, side, n), tile).len(),
    ensures
        visitors(visits(places, side, n), tile)[i] <= visitors(visits(places, side, n), tile)[j],
{
    lemma_visitors_ordered(places, side, n, tile);
}

proof fn lemma_visitors_ordered(places: Seq<SitePlace>, side: int, n: nat, tile: (u32, u32))
    requires
        n <= usize::MAX,
    ensures
        forall|i: int, j: int|
            0 <= i <= j < visitors(visits(places, side, n), tile).len() ==> (#[trigger] visitors(
                visits(places, side, n),
                tile,
            )[i]) <= (#[trigger] visitors(visits(places, side, n), tile)[j]),
        forall|i: int|
            0 <= i < visitors(visits(places, side, n), tile).len() ==> (#[trigger] visitors(
                visits(places, side, n),
                tile,
            )[i]) < n,
    decreases n,
{
    let keep = visits_tile(tile);
    if n == 0 {
        reveal(Seq::filter);
    } else {
        lemma_visitors_ordered(places, side, (n - 1) as nat, tile);
        let before = visits(places, side, (n - 1) as nat);
        let now = visits_of(tiles_of(places[n - 1], side), n - 1);
        Seq::filter_distributes_over_add(before, now, keep);
        let number = |visit: Visit| visit.1;
        let (left, right) = (visitors(before, tile), visitors(now, tile));
        let all = visitors(visits(places, side, n), tile);
        assert(all =~= left + right) by {
            assert((before.filter(keep) + now.filter(keep)).map_values(number) =~= before.filter(
                keep,
            ).map_values(number) + now.filter(keep).map_values(number));
        }
        assert forall|i: int| 0 <= i < right.len() implies #[trigger] right[i] == n - 1 by {
            lemma_kept_are_some(now, keep, i);
        }
        assert forall|i: int| 0 <= i < all.len() implies (#[trigger] all[i]) < n && (i
            >= left.len() ==> all[i] == n - 1) && (i < left.len() ==> all[i] == left[i]) by {
            if i >= left.len() {
                assert(all[i] == right[i - left.len()]);
            }
        }
    }
}

// ---------------------------------------------------------------------------
// What tiles hold of the points
// ---------------------------------------------------------------------------

/// The point lies in the cell with a position along the curve through the grid.
pub open spec fn lies_at(point: PointValue, id: u32) -> bool {
    curve(16, point.x as int, point.y as int) == id
}

/// Some point of a band lies in the cell.
pub open spec fn has_reading(points: Seq<PointValue>, id: u32, b: int) -> bool {
    exists|k: int|
        0 <= k < points.len() && lies_at(#[trigger] points[k], id) && points[k].band_idx == b
}

/// Some point of a band in the cell has the value.
pub open spec fn was_read(points: Seq<PointValue>, id: u32, b: int, value: Option<int>) -> bool {
    exists|k: int|
        {
            &&& 0 <= k < points.len()
            &&& lies_at(#[trigger] points[k], id)
            &&& points[k].band_idx == b
            &&& value == Some(points[k].value as int)
        }
}

/// Some point in the cell has the width.
pub open spec fn has_width(points: Seq<PointValue>, id: u32, power: u8) -> bool {
    exists|k: int|
        0 <= k < points.len() && lies_at(#[trigger] points[k], id) && points[k].point_power
            == power
}

/// The value of a band in a cell is one that was read for the band in the cell; where none was, it
/// is zero.
pub open spec fn is_reading(
    points: Seq<PointValue>,
    id: u32,
    b: int,
    value: Option<int>,
) -> bool {
    if has_reading(points, id, b) {
        was_read(points, id, b, value)
    } else {
        value == Some(0int)
    }
}

/// Some of the first `n` points of a band has the position.
spec fn has_before(points: Seq<PointValue>, n: nat, id: u32, b: int) -> bool {
    exists|j: int|
        0 <= j < n && (#[trigger] points[j]).point_id == id && points[j].band_idx == b
}

/// Some of the first `n` points of a band has the position and the value.
spec fn read_before(
    points: Seq<PointValue>,
    n: nat,
    id: u32,
    b: int,
    value: Option<int>,
) -> bool {
    exists|j: int|
        {
            &&& 0 <= j < n
            &&& (#[trigger] points[j]).point_id == id
            &&& points[j].band_idx == b
            &&& value == Some(points[j].value as int)
        }
}

/// The site is made of the first `n` points.
spec fn is_site_of(points: Seq<PointValue>, n: nat, site: SiteView) -> bool {
    &&& exists|j: int|
        {
            &&& 0 <= j < n
            &&& (#[trigger] points[j]).point_id == site.point_id
            &&& points[j].x == site.x
            &&& points[j].y == site.y
            &&& points[j].point_power == site.point_power
        }
    &&& site.values.len() == 4
    &&& forall|b: int|
        0 <= b < 4 ==> if has_before(points, n, site.point_id, b) {
            read_before(points, n, site.point_id, b, #[trigger] site.values[b])
        } else {
            site.values[b] == Some(0int)
        }
}

/// Some site has the position.
spec fn has_site(sites: Seq<SiteView>, id: u32) -> bool {
    exists|s: int| 0 <= s < sites.len() && (#[trigger] sites[s]).point_id == id
}

proof fn lemma_read_later(points: Seq<PointValue>, n: nat, site: SiteView)
    requires
        n > 0,
        is_site_of(points, (n - 1) as nat, site),
        points[n - 1].point_id != site.point_id,
    ensures
        is_site_of(points, n, site),
{
    let m = (n - 1) as nat;
    let j = choose|j: int|
        {
            &&& 0 <= j < m
            &&& (#[trigger] points[j]).point_id == site.point_id
            &&& points[j].x == site.x
            &&& points[j].y == site.y
            &&& points[j].point_power == site.point_power
        };
    assert(0 <= j < n && points[j].point_id == site.point_id);
    assert forall|b: int| 0 <= b < 4 implies if has_before(points, n, site.point_id, b) {
        read_before(points, n, site.point_id, b, #[trigger] site.values[b])
    } else {
        site.values[b] == Some(0int)
    } by {
        if has_before(points, n, site.point_id, b) {
            let k = choose|k: int|
                0 <= k < n && (#[trigger] points[k]).point_id == site.point_id && points[k].band_idx
                    == b;
            assert(k < m);
            assert(has_before(points, m, site.point_id, b));
            let v = site.values[b];
            assert(read_before(points, m, site.point_id, b, v));
            let l = choose|l: int|
                {
                    &&& 0 <= l < m
                    &&& (#[trigger] points[l]).point_id == site.point_id
                    &&& points[l].band_idx == b
                    &&& v == Some(points[l].value as int)
                };
            assert(points[l].point_id == site.point_id);
        } else {
            if has_before(points, m, site.point_id, b) {
                let k = choose|k: int|
                    0 <= k < m && (#[trigger] points[k]).point_id == site.point_id
                        && points[k].band_idx == b;
                assert(points[k].point_id == site.point_id);
            }
        }
    }
}

proof fn lemma_sites_are_of_points(points: Seq<PointValue>, n: nat)
    requires
        in_position_order(points),
        n <= points.len(),
        are_placeable(points),
    ensures
        forall|s: int|
            0 <= s < sites_of(points, n).len() ==> is_site_of(
                points,
                n,
                #[trigger] sites_of(points, n)[s],
            ),
        forall|j: int|
            0 <= j < n ==> has_site(sites_of(points, n), (#[trigger] points[j]).point_id),
    decreases n,
{
    if n > 0 {
        let m = (n - 1) as nat;
        lemma_sites_are_of_points(points, m);
        law_sites_come_in_order(points, m);
        law_sites_come_in_order(points, n);
        let before = sites_of(points, m);
        let after = sites_of(points, n);
        let point = points[n - 1];
        let value = Some(point.value as int);
        let last = after.len() - 1;
        assert(point.band_idx < 4);
        assert forall|s: int| 0 <= s < after.len() implies is_site_of(
            points,
            n,
            #[trigger] after[s],
        ) by {
            let site = after[s];
            if s < last {
                assert(site == before[s]);
                assert(is_site_of(points, m, before[s]));
                assert(after[s].point_id < after[last].point_id);
                lemma_read_later(points, n, site);
            } else {
                let merged = before.len() > 0 && before.last().point_id == point.point_id;
                if merged {
                    assert(is_site_of(points, m, before[s]));
                    let j = choose|j: int|
                        {
                            &&& 0 <= j < m
                            &&& (#[trigger] points[j]).point_id == before[s].point_id
                            &&& points[j].x == before[s].x
                            &&& points[j].y == before[s].y
                            &&& points[j].point_power == before[s].point_power
                        };
                    assert(0 <= j < n && points[j].point_id == site.point_id);
                } else {
                    assert(points[n - 1].point_id == site.point_id);
                }
                assert forall|b: int| 0 <= b < 4 implies if has_before(
                    points,
                    n,
                    site.point_id,
                    b,
                ) {
                    read_before(points, n, site.point_id, b, #[trigger] site.values[b])
                } else {
                    site.values[b] == Some(0int)
                } by {
                    if b == point.band_idx {
                        assert(site.values[b] == value);
                        assert(points[n - 1].point_id == site.point_id);
                        assert(has_before(points, n, site.point_id, b));
                        assert(read_before(points, n, site.point_id, b, site.values[b]));
                    } else if merged {
                        let v = before[s].values[b];
                        assert(site.values[b] == v);
                        if has_before(points, n, site.point_id, b) {
                            let k = choose|k: int|
                                0 <= k < n && (#[trigger] points[k]).point_id == site.point_id
                                    && points[k].band_idx == b;
                            assert(k < m && points[k].point_id == before[s].point_id);
                            assert(has_before(points, m, before[s].point_id, b));
                            assert(read_before(points, m, before[s].point_id, b, v));
                            let l = choose|l: int|
                                {
                                    &&& 0 <= l < m
                                    &&& (#[trigger] points[l]).point_id == before[s].point_id
                                    &&& points[l].band_idx == b
                                    &&& v == Some(points[l].value as int)
                                };
                            assert(points[l].point_id == site.point_id);
                        } else {
                            if has_before(points, m, before[s].point_id, b) {
                                let k = choose|k: int|
                                    0 <= k < m && (#[trigger] points[k]).point_id
                                        == before[s].point_id && points[k].band_idx == b;
                                assert(points[k].point_id == site.point_id);
                            }
                        }
                    } else {
                        if has_before(points, n, site.point_id, b) {
                            let k = choose|k: int|
                                0 <= k < n && (#[trigger] points[k]).point_id == site.point_id
                                    && points[k].band_idx == b;
                            assert(k < m);
                            assert(has_site(before, points[k].point_id));
                            let t = choose|t: int|
                                0 <= t < before.len() && (#[trigger] before[t]).point_id
                                    == points[k].point_id;
                            assert(after[t] == before[t]);
                            assert(after[t].point_id < after[last].point_id);
                        }
                    }
                }
            }
        }
        assert forall|j: int| 0 <= j < n implies has_site(after, (#[trigger] points[j]).point_id) by {
            if j == n - 1 {
                assert(after[last].point_id == point.point_id);
            } else {
                assert(has_site(before, points[j].point_id));
                let t = choose|t: int|
                    0 <= t < before.len() && (#[trigger] before[t]).point_id == points[j].point_id;
                assert(after[t].point_id == before[t].point_id);
            }
        }
    }
}

proof fn lemma_located(point: PointValue)
    ensures
        located(point).point_id == curve(16, point.x as int, point.y as int),
        forall|id: u32| #[trigger] lies_at(point, id) <==> located(point).point_id == id,
{
    lemma2_to64();
    assert(2 * 16nat == 32);
    law_positions_fit(16, point.x as int, point.y as int);
}

proof fn lemma_same_points(points: Seq<PointValue>, sorted: Seq<PointValue>)
    requires
        sorted.to_multiset() == all_located(points).to_multiset(),
    ensures
        forall|j: int| 0 <= j < sorted.len() ==> is_located(points, #[trigger] sorted[j]),
        forall|k: int| 0 <= k < points.len() ==> sorted.contains(located(#[trigger] points[k])),
{
    broadcast use group_to_multiset_ensures;

    let all = all_located(points);
    assert forall|j: int| 0 <= j < sorted.len() implies is_located(points, #[trigger] sorted[j]) by {
        assert(sorted.contains(sorted[j]));
        assert(sorted.to_multiset().count(sorted[j]) > 0);
        assert(all.contains(sorted[j]));
        let k = choose|k: int| 0 <= k < all.len() && all[k] == sorted[j];
        assert(located(points[k]) == sorted[j]);
    }
    assert forall|k: int| 0 <= k < points.len() implies sorted.contains(
        located(#[trigger] points[k]),
    ) by {
        assert(all[k] == located(points[k]));
        assert(all.contains(all[k]));
        assert(all.to_multiset().count(all[k]) > 0);
        assert(sorted.to_multiset().count(all[k]) > 0);
    }
}

/// The point is one of some points, with its position.
spec fn is_located(points: Seq<PointValue>, point: PointValue) -> bool {
    exists|k: int| 0 <= k < points.len() && located(#[trigger] points[k]) == point
}

/// The given points and the ordered ones are the same, and the site is made of them.
spec fn is_made_of(points: Seq<PointValue>, sorted: Seq<PointValue>, site: SiteView) -> bool {
    &&& forall|j: int| 0 <= j < sorted.len() ==> is_located(points, #[trigger] sorted[j])
    &&& forall|k: int| 0 <= k < points.len() ==> sorted.contains(located(#[trigger] points[k]))
    &&& is_site_of(sorted, sorted.len(), site)
}

proof fn lemma_site_width(points: Seq<PointValue>, sorted: Seq<PointValue>, site: SiteView)
    requires
        is_made_of(points, sorted, site),
    ensures
        curve(16, site.x as int, site.y as int) == site.point_id,
        has_width(points, site.point_id, site.point_power),
{
    let j = choose|j: int|
        {
            &&& 0 <= j < sorted.len()
            &&& (#[trigger] sorted[j]).point_id == site.point_id
            &&& sorted[j].x == site.x
            &&& sorted[j].y == site.y
            &&& sorted[j].point_power == site.point_power
        };
    assert(is_located(points, sorted[j]));
    let k = choose|k: int| 0 <= k < points.len() && located(#[trigger] points[k]) == sorted[j];
    lemma_located(points[k]);
    assert(lies_at(points[k], site.point_id));
}

proof fn lemma_site_reading(points: Seq<PointValue>, sorted: Seq<PointValue>, site: SiteView, b: int)
    requires
        is_made_of(points, sorted, site),
        0 <= b < 4,
    ensures
        is_reading(points, site.point_id, b, site.values[b]),
{
    let n = sorted.len();
    let id = site.point_id;
    let v = site.values[b];
    if has_reading(points, id, b) {
        let k = choose|k: int|
            0 <= k < points.len() && lies_at(#[trigger] points[k], id) && points[k].band_idx == b;
        lemma_located(points[k]);
        assert(sorted.contains(located(points[k])));
        let j = choose|j: int| 0 <= j < n && sorted[j] == located(points[k]);
        assert(sorted[j].point_id == id && sorted[j].band_idx == b);
        assert(has_before(sorted, n, id, b));
        assert(read_before(sorted, n, id, b, v));
        let l = choose|l: int|
            {
                &&& 0 <= l < n
                &&& (#[trigger] sorted[l]).point_id == id
                &&& sorted[l].band_idx == b
                &&& v == Some(sorted[l].value as int)
            };
        assert(is_located(points, sorted[l]));
        let q = choose|q: int| 0 <= q < points.len() && located(#[trigger] points[q]) == sorted[l];
        lemma_located(points[q]);
        assert(lies_at(points[q], id));
    } else {
        if has_before(sorted, n, id, b) {
            let l = choose|l: int|
                0 <= l < n && (#[trigger] sorted[l]).point_id == id && sorted[l].band_idx == b;
            assert(is_located(points, sorted[l]));
            let q = choose|q: int|
                0 <= q < points.len() && located(#[trigger] points[q]) == sorted[l];
            lemma_located(points[q]);
            assert(lies_at(points[q], id));
        }
    }
}

proof fn lemma_sites_are_made_of_points(
    points: Seq<PointValue>,
    sorted: Seq<PointValue>,
    sites: Seq<Site>,
)
    requires
        are_placeable(points),
        in_position_order(sorted),
        sorted.to_multiset() == all_located(points).to_multiset(),
        site_views(sites) == sites_of(sorted, sorted.len()),
    ensures
        forall|s: int| 0 <= s < sites.len() ==> is_made_of(points, sorted, (#[trigger] sites[s])@),
        forall|k: int|
            0 <= k < points.len() ==> has_site(
                site_views(sites),
                located(#[trigger] points[k]).point_id,
            ),
        forall|s: int, t: int|
            0 <= s < t < sites.len() ==> (#[trigger] sites[s]).point_id < (
            #[trigger] sites[t]).point_id,
{
    let n = sorted.len();
    let views = site_views(sites);
    lemma_same_points(points, sorted);
    assert(are_placeable(sorted)) by {
        assert forall|j: int| 0 <= j < n implies (#[trigger] sorted[j]).band_idx < 4
            && sorted[j].value != i32::MIN by {
            assert(is_located(points, sorted[j]));
            let k = choose|k: int|
                0 <= k < points.len() && located(#[trigger] points[k]) == sorted[j];
            assert(points[k].band_idx < 4);
        }
    }
    lemma_sites_are_of_points(sorted, n);
    law_sites_come_in_order(sorted, n);
    assert forall|s: int| 0 <= s < sites.len() implies is_made_of(
        points,
        sorted,
        (#[trigger] sites[s])@,
    ) by {
        assert(views[s] == sites[s]@);
    }
    assert forall|k: int| 0 <= k < points.len() implies has_site(
        views,
        located(#[trigger] points[k]).point_id,
    ) by {
        assert(sorted.contains(located(points[k])));
        let j = choose|j: int| 0 <= j < n && sorted[j] == located(points[k]);
        assert(has_site(views, sorted[j].point_id));
    }
    assert forall|s: int, t: int| 0 <= s < t < sites.len() implies (#[trigger] sites[s]).point_id
        < (#[trigger] sites[t]).point_id by {
        assert(views[s] == sites[s]@ && views[t] == sites[t]@);
        assert(views[s].point_id < views[t].point_id);
    }
}

/// Some site is the cell with the position.
pub open spec fn has_cell(sites: Seq<Site>, point: PointValue) -> bool {
    exists|s: int| 0 <= s < sites.len() && lies_at(point, (#[trigger] sites[s]).point_id)
}

/// The sites are those of points: as many as there are cells with a point, one for each, and each
/// with its cell's position, a width that was given for it, and in every band a value that was read
/// for that band in that cell, or zero where none was.
pub proof fn law_sites_hold_what_was_read(
    points: Seq<PointValue>,
    sorted: Seq<PointValue>,
    sites: Seq<Site>,
)
    requires
        are_placeable(points),
        in_position_order(sorted),
        sorted.to_multiset() == all_located(points).to_multiset(),
        site_views(sites) == sites_of(sorted, sorted.len()),
    ensures
        forall|s: int|
            0 <= s < sites.len() ==> {
                &&& curve(16, (#[trigger] sites[s]).x as int, sites[s].y as int)
                    == sites[s].point_id
                &&& has_width(points, sites[s].point_id, sites[s].point_power)
            },
        forall|s: int, b: int|
            0 <= s < sites.len() && 0 <= b < 4 ==> is_reading(
                points,
                sites[s].point_id,
                b,
                plain(#[trigger] sites[s].values@[b]),
            ),
        forall|k: int| 0 <= k < points.len() ==> has_cell(sites, #[trigger] points[k]),
        forall|s: int, t: int|
            0 <= s < t < sites.len() ==> (#[trigger] sites[s]).point_id < (
            #[trigger] sites[t]).point_id,
{
    lemma_sites_are_made_of_points(points, sorted, sites);
    assert forall|s: int| 0 <= s < sites.len() implies curve(
        16,
        (#[trigger] sites[s]).x as int,
        sites[s].y as int,
    ) == sites[s].point_id && has_width(points, sites[s].point_id, sites[s].point_power) by {
        lemma_site_width(points, sorted, sites[s]@);
    }
    assert forall|s: int, b: int| 0 <= s < sites.len() && 0 <= b < 4 implies is_reading(
        points,
        sites[s].point_id,
        b,
        plain(#[trigger] sites[s].values@[b]),
    ) by {
        lemma_site_reading(points, sorted, sites[s]@, b);
        assert(sites[s]@.values[b] == plain(sites[s].values@[b]));
    }
    assert forall|k: int| 0 <= k < points.len() implies has_cell(sites, #[trigger] points[k]) by {
        lemma_located(points[k]);
        let views = site_views(sites);
        let id = located(points[k]).point_id;
        assert(has_site(views, id));
        let s = choose|s: int| 0 <= s < views.len() && (#[trigger] views[s]).point_id == id;
        assert(views[s] == sites[s]@);
        assert(lies_at(points[k], sites[s].point_id));
    }
}

/// The site reaches the tile: some column of its footprint comes round to the tile's, and its rows
/// hold the tile's.
pub open spec fn reaches_tile(place: SitePlace, side: int, tile: (u32, u32)) -> bool {
    match place.footprint {
        None => false,
        Some(footprint) => {
            &&& exists|x: int|
                footprint.x1 <= x <= footprint.x2 && #[trigger] (x % side) == tile.0
            &&& footprint.y1 <= tile.1 <= footprint.y2
            &&& tile.1 < side
        },
    }
}

proof fn lemma_reaches_tile(place: SitePlace, side: int, tile: (u32, u32))
    requires
        0 < side <= 0x4000_0000,
    ensures
        tiles_of(place, side).contains(tile) <==> reaches_tile(place, side, tile),
{
    if let Some(footprint) = place.footprint {
        let n = span(footprint.x1 as int, footprint.x2 as int);
        law_footprint_tiles(footprint, side, n, tile);
        if reaches_tile(place, side, tile) {
            let x = choose|x: int|
                footprint.x1 <= x <= footprint.x2 && #[trigger] (x % side) == tile.0;
            assert(footprint.x1 <= x < footprint.x1 + n && x % side == tile.0);
        }
        if tiles_of(place, side).contains(tile) {
            let x = choose|x: int|
                footprint.x1 <= x < footprint.x1 + n && #[trigger] (x % side) == tile.0;
            assert(footprint.x1 <= x <= footprint.x2 && x % side == tile.0);
        }
    }
}

proof fn lemma_visitors_reach(
    places: Seq<SitePlace>,
    side: int,
    n: nat,
    tile: (u32, u32),
    site: usize,
)
    requires
        0 < side <= 0x4000_0000,
        n <= places.len(),
        n <= usize::MAX,
    ensures
        visitors(visits(places, side, n), tile).contains(site) <==> site < n && reaches_tile(
            places[site as int],
            side,
            tile,
        ),
    decreases n,
{
    let keep = visits_tile(tile);
    if n == 0 {
        reveal(Seq::filter);
    } else {
        let m = (n - 1) as nat;
        lemma_visitors_reach(places, side, m, tile, site);
        lemma_reaches_tile(places[n - 1], side, tile);
        let before = visits(places, side, m);
        let tiles = tiles_of(places[n - 1], side);
        let now = visits_of(tiles, n - 1);
        Seq::filter_distributes_over_add(before, now, keep);
        let number = |visit: Visit| visit.1;
        let (left, right) = (visitors(before, tile), visitors(now, tile));
        let all = visitors(visits(places, side, n), tile);
        assert(all =~= left + right) by {
            assert((before.filter(keep) + now.filter(keep)).map_values(number) =~= before.filter(
                keep,
            ).map_values(number) + now.filter(keep).map_values(number));
        }
        lemma_joined_contains(left, right, site);
        if right.contains(site) {
            let i = choose|i: int| 0 <= i < right.len() && right[i] == site;
            lemma_kept_are_some(now, keep, i);
            let k = choose|k: int| 0 <= k < now.len() && #[trigger] now[k] == now.filter(keep)[i];
            assert(now[k] == (tiles[k], (n - 1) as usize));
            assert(tiles[k] == tile);
            assert(tiles.contains(tile));
            assert(site == n - 1);
        }
        if site == n - 1 && tiles.contains(tile) {
            let k = choose|k: int| 0 <= k < tiles.len() && tiles[k] == tile;
            assert(now[k] == (tile, site));
            lemma_kept_has(now, keep, k);
            let i = choose|i: int|
                0 <= i < now.filter(keep).len() && #[trigger] now.filter(keep)[i] == now[k];
            assert(right[i] == site);
        }
    }
}

/// The entry of a tile at a place is a site: its position, its width and, band by band, its values.
pub open spec fn holds_site(tile: BaseTile, i: int, site: Site) -> bool {
    &&& tile.point_ids@[i] == site.point_id
    &&& tile.point_powers@[i] == site.point_power
    &&& forall|b: int|
        0 <= b < tile.bands@.len() ==> (#[trigger] tile.bands@[b]).values@[i] == site.values@[b]
}

/// The entry of a tile at a place is a site that reaches the tile.
pub open spec fn is_rightly_there(
    tile: BaseTile,
    i: int,
    sites: Seq<Site>,
    places: Seq<SitePlace>,
    side: int,
    at: (u32, u32),
) -> bool {
    exists|s: int|
        {
            &&& 0 <= s < sites.len()
            &&& holds_site(tile, i, #[trigger] sites[s])
            &&& reaches_tile(places[s], side, at)
        }
}

/// Every chunk of a product stands at the position of a tile, and each of its entries is a site
/// that reaches the tile; there is a column for every band.
pub proof fn law_chunks_hold_sites_that_reach_them(
    chunks: Seq<Chunk>,
    sites: Seq<Site>,
    places: Seq<SitePlace>,
    base_z: u8,
    band_count: int,
    c: int,
)
    requires
        places.len() == sites.len(),
        places.len() <= usize::MAX,
        base_z <= 30,
        are_chunks(
            chunks,
            sites,
            visits(places, pow2(base_z as nat) as int, places.len()),
            base_z,
            band_count,
        ),
        0 <= c < chunks.len(),
    ensures
        chunks[c].1.bands@.len() == band_count,
        chunks[c].1.well_formed(),
        exists|at: (u32, u32)|
            {
                &&& at.0 < pow2(base_z as nat) && at.1 < pow2(base_z as nat)
                &&& #[trigger] curve(base_z as nat, at.0 as int, at.1 as int) == chunks[c].0
                &&& chunks[c].1.point_ids@.len() > 0
                &&& forall|i: int|
                    0 <= i < chunks[c].1.point_ids@.len() ==> #[trigger] is_rightly_there(
                        chunks[c].1,
                        i,
                        sites,
                        places,
                        pow2(base_z as nat) as int,
                        at,
                    )
            },
{
    let side = pow2(base_z as nat) as int;
    lemma_side(base_z);
    let n = places.len();
    let all = visits(places, side, n);
    assert(is_some_chunk(chunks[c], sites, all, base_z, band_count));
    let at = choose|tile: (u32, u32)|
        #[trigger] is_chunk_of(chunks[c], tile, sites, all, base_z, band_count);
    let tile = chunks[c].1;
    let numbers = visitors(all, at);
    assert(holds_sites(tile, sites, numbers, band_count));
    assert(curve(base_z as nat, at.0 as int, at.1 as int) == chunks[c].0);
    assert forall|i: int| 0 <= i < tile.point_ids@.len() implies #[trigger] is_rightly_there(
        tile,
        i,
        sites,
        places,
        side,
        at,
    ) by {
        let s = numbers[i];
        assert(numbers.contains(s));
        lemma_visitors_reach(places, side, n, at, s);
        assert(holds_site(tile, i, sites[s as int]));
    }
}

proof fn lemma_side(base_z: u8)
    requires
        base_z <= 30,
    ensures
        0 < pow2(base_z as nat) <= 0x4000_0000,
{
    lemma2_to64();
    lemma_pow2_pos(base_z as nat);
    if base_z < 30 {
        lemma_pow2_strictly_increases(base_z as nat, 30);
    }
}

/// A site stands in every tile that it reaches: there is a chunk at the tile's position with an
/// entry that is the site.
pub proof fn law_sites_stand_where_they_reach(
    chunks: Seq<Chunk>,
    sites: Seq<Site>,
    places: Seq<SitePlace>,
    base_z: u8,
    band_count: int,
    s: int,
    at: (u32, u32),
)
    requires
        places.len() == sites.len(),
        places.len() <= usize::MAX,
        base_z <= 30,
        are_chunks(
            chunks,
            sites,
            visits(places, pow2(base_z as nat) as int, places.len()),
            base_z,
            band_count,
        ),
        0 <= s < sites.len(),
        reaches_tile(places[s], pow2(base_z as nat) as int, at),
    ensures
        exists|c: int, i: int|
            {
                &&& 0 <= c < chunks.len()
                &&& chunks[c].0 == curve(base_z as nat, at.0 as int, at.1 as int)
                &&& 0 <= i < chunks[c].1.point_ids@.len()
                &&& #[trigger] holds_site(chunks[c].1, i, sites[s])
            },
{
    let side = pow2(base_z as nat) as int;
    lemma_side(base_z);
    let n = places.len();
    let all = visits(places, side, n);
    lemma_visitors_reach(places, side, n, at, s as usize);
    let numbers = visitors(all, at);
    assert(numbers.contains(s as usize));
    let i = choose|i: int| 0 <= i < numbers.len() && numbers[i] == s as usize;
    assert(has_chunk_of(chunks, at, sites, all, base_z, band_count));
    let c = choose|c: int|
        0 <= c < chunks.len() && is_chunk_of(
            #[trigger] chunks[c],
            at,
            sites,
            all,
            base_z,
            band_count,
        );
    assert(holds_sites(chunks[c].1, sites, numbers, band_count));
    assert(holds_site(chunks[c].1, i, sites[s]));
}

/// What stands in a column of a tile was read for that band: the value at a place of band `b` is
/// one that was read for band `b` in the cell at that place, or zero where none was; and the width
/// is one that was given for the cell.
pub proof fn law_tiles_hold_what_was_read(
    points: Seq<PointValue>,
    sorted: Seq<PointValue>,
    sites: Seq<Site>,
    places: Seq<SitePlace>,
    chunks: Seq<Chunk>,
    base_z: u8,
    band_count: int,
    c: int,
    i: int,
)
    requires
        are_placeable(points),
        in_position_order(sorted),
        sorted.to_multiset() == all_located(points).to_multiset(),
        site_views(sites) == sites_of(sorted, sorted.len()),
        places.len() == sites.len(),
        places.len() <= usize::MAX,
        base_z <= 30,
        band_count <= 4,
        are_chunks(
            chunks,
            sites,
            visits(places, pow2(base_z as nat) as int, places.len()),
            base_z,
            band_count,
        ),
        0 <= c < chunks.len(),
        0 <= i < chunks[c].1.point_ids@.len(),
    ensures
        chunks[c].1.bands@.len() == band_count,
        has_width(points, chunks[c].1.point_ids@[i], chunks[c].1.point_powers@[i]),
        forall|b: int|
            0 <= b < band_count ==> is_reading(
                points,
                chunks[c].1.point_ids@[i],
                b,
                plain((#[trigger] chunks[c].1.bands@[b]).values@[i]),
            ),
{
    let side = pow2(base_z as nat) as int;
    law_sites_hold_what_was_read(points, sorted, sites);
    law_chunks_hold_sites_that_reach_them(chunks, sites, places, base_z, band_count, c);
    let tile = chunks[c].1;
    let at = choose|at: (u32, u32)|
        {
            &&& at.0 < pow2(base_z as nat) && at.1 < pow2(base_z as nat)
            &&& #[trigger] curve(base_z as nat, at.0 as int, at.1 as int) == chunks[c].0
            &&& tile.point_ids@.len() > 0
            &&& forall|k: int|
                0 <= k < tile.point_ids@.len() ==> #[trigger] is_rightly_there(
                    tile,
                    k,
                    sites,
                    places,
                    side,
                    at,
                )
        };
    assert(is_rightly_there(tile, i, sites, places, side, at));
    let s = choose|s: int|
        {
            &&& 0 <= s < sites.len()
            &&& holds_site(tile, i, #[trigger] sites[s])
            &&& reaches_tile(places[s], side, at)
        };
    assert forall|b: int| 0 <= b < band_count implies is_reading(
        points,
        tile.point_ids@[i],
        b,
        plain((#[trigger] tile.bands@[b]).values@[i]),
    ) by {
        assert(tile.bands@[b].values@[i] == sites[s].values@[b]);
        assert(is_reading(points, sites[s].point_id, b, plain(sites[s].values@[b])));
    }
}

/// The bounds of a product are no wider than its sites: each side is that of some site.
pub proof fn law_bounds_are_those_of_sites(places: Seq<SitePlace>, n: nat)
    requires
        0 < n <= places.len(),
        forall|i: int|
            0 <= i < n ==> {
                &&& (#[trigger] places[i]).lng1.is_finite() && places[i].lng2.is_finite()
                &&& places[i].lat1.is_finite() && places[i].lat2.is_finite()
            },
    ensures
        exists|i: int| 0 <= i < n && equal((#[trigger] places[i]).lng1, bounds_of(places, n)[0]),
        exists|i: int| 0 <= i < n && equal((#[trigger] places[i]).lat2, bounds_of(places, n)[1]),
        exists|i: int| 0 <= i < n && equal((#[trigger] places[i]).lng2, bounds_of(places, n)[2]),
        exists|i: int| 0 <= i < n && equal((#[trigger] places[i]).lat1, bounds_of(places, n)[3]),
    decreases n,
{
    let last = places[n - 1];
    let all = bounds_of(places, n);
    let before = bounds_of(places, (n - 1) as nat);
    assert(last.lng1.is_finite() && last.lat1.is_finite());
    if n > 1 {
        law_bounds_are_those_of_sites(places, (n - 1) as nat);
        if all[0] == before[0] {
            let i = choose|i: int| 0 <= i < n - 1 && equal((#[trigger] places[i]).lng1, before[0]);
            assert(equal(places[i].lng1, all[0]));
        } else {
            assert(equal(places[n - 1].lng1, all[0]));
        }
        if all[1] == before[1] {
            let i = choose|i: int| 0 <= i < n - 1 && equal((#[trigger] places[i]).lat2, before[1]);
            assert(equal(places[i].lat2, all[1]));
        } else {
            assert(equal(places[n - 1].lat2, all[1]));
        }
        if all[2] == before[2] {
            let i = choose|i: int| 0 <= i < n - 1 && equal((#[trigger] places[i]).lng2, before[2]);
            assert(equal(places[i].lng2, all[2]));
        } else {
            assert(equal(places[n - 1].lng2, all[2]));
        }
        if all[3] == before[3] {
            let i = choose|i: int| 0 <= i < n - 1 && equal((#[trigger] places[i]).lat1, before[3]);
            assert(equal(places[i].lat1, all[3]));
        } else {
            assert(equal(places[n - 1].lat1, all[3]));
        }
    } else {
        assert(before == seq![
            greatest_number(),
            greatest_number(),
            least_number(),
            least_number(),
        ]);
        assert(equal(places[0].lng1, all[0]));
        assert(equal(places[0].lat2, all[1]));
        assert(equal(places[0].lng2, all[2]));
        assert(equal(places[0].lat1, all[3]));
    }
}

proof fn lemma_columns_differ(a: int, b: int, side: int)
    requires
        0 < b - a < side,
    ensures
        a % side != b % side,
{
    lemma_fundamental_div_mod(a, side);
    lemma_fundamental_div_mod(b, side);
    let (p, q) = (a / side, b / side);
    if a % side == b % side {
        assert(false) by (nonlinear_arith)
            requires
                b - a == side * q - side * p,
                0 < b - a < side,
        ;
    }
}

proof fn lemma_column_tiles_differ(x: int, y1: int, side: int, n: nat)
    requires
        0 < side <= 0x4000_0000,
    ensures
        column_tiles(x, y1, side, n).no_duplicates(),
    decreases n,
{
    if n > 0 {
        lemma_column_tiles_differ(x, y1, side, (n - 1) as nat);
        let before = column_tiles(x, y1, side, (n - 1) as nat);
        let y = y1 + n - 1;
        if 0 <= y < side {
            let added = ((x % side) as u32, y as u32);
            lemma_column_tiles(x, y1, side, (n - 1) as nat, added);
            let after = before.push(added);
            assert forall|i: int, j: int|
                0 <= i < after.len() && 0 <= j < after.len() && i != j implies after[i]
                != after[j] by {
                if i < before.len() {
                    assert(before.contains(before[i]));
                }
                if j < before.len() {
                    assert(before.contains(before[j]));
                }
            }
        }
    }
}

proof fn lemma_footprint_tiles_differ(footprint: Footprint, side: int, n: nat)
    requires
        0 < side <= 0x4000_0000,
        n <= side,
    ensures
        footprint_tiles(footprint, side, n).no_duplicates(),
    decreases n,
{
    if n > 0 {
        lemma_footprint_tiles_differ(footprint, side, (n - 1) as nat);
        let rows = span(footprint.y1 as int, footprint.y2 as int);
        let before = footprint_tiles(footprint, side, (n - 1) as nat);
        let x = footprint.x1 + n - 1;
        let now = column_tiles(x, footprint.y1 as int, side, rows);
        lemma_column_tiles_differ(x, footprint.y1 as int, side, rows);
        let all = before + now;
        assert forall|i: int, j: int| 0 <= i < before.len() && 0 <= j < now.len() implies before[i]
            != now[j] by {
            let tile = before[i];
            assert(before.contains(before[i]));
            assert(now.contains(now[j]));
            law_footprint_tiles(footprint, side, (n - 1) as nat, tile);
            lemma_column_tiles(x, footprint.y1 as int, side, rows, now[j]);
            let c = choose|c: int|
                footprint.x1 <= c < footprint.x1 + (n - 1) && #[trigger] (c % side) == tile.0;
            lemma_columns_differ(c, x, side);
        }
        assert forall|i: int, j: int| 0 <= i < all.len() && 0 <= j < all.len() && i != j implies all[i]
            != all[j] by {
            if i < before.len() && j >= before.len() {
                assert(before[i] != now[j - before.len()]);
            } else if j < before.len() && i >= before.len() {
                assert(before[j] != now[i - before.len()]);
            }
        }
    }
}

/// The site's footprint has no more columns than the world.
pub open spec fn is_narrow(place: SitePlace, side: int) -> bool {
    place.footprint matches Some(footprint) ==> footprint.x2 - footprint.x1 < side
}

proof fn lemma_visitors_differ(places: Seq<SitePlace>, side: int, n: nat, tile: (u32, u32))
    requires
        0 < side <= 0x4000_0000,
        n <= places.len(),
        n <= usize::MAX,
        forall|s: int| 0 <= s < places.len() ==> is_narrow(#[trigger] places[s], side),
    ensures
        forall|i: int, j: int|
            0 <= i < j < visitors(visits(places, side, n), tile).len() ==> (#[trigger] visitors(
                visits(places, side, n),
                tile,
            )[i]) < (#[trigger] visitors(visits(places, side, n), tile)[j]),
    decreases n,
{
    let keep = visits_tile(tile);
    if n == 0 {
        reveal(Seq::filter);
    } else {
        let m = (n - 1) as nat;
        lemma_visitors_differ(places, side, m, tile);
        lemma_visitors_ordered(places, side, m, tile);
        let before = visits(places, side, m);
        let tiles = tiles_of(places[n - 1], side);
        let now = visits_of(tiles, n - 1);
        assert(is_narrow(places[n - 1], side));
        if let Some(footprint) = places[n - 1].footprint {
            lemma_footprint_tiles_differ(
                footprint,
                side,
                span(footprint.x1 as int, footprint.x2 as int),
            );
        }
        Seq::filter_distributes_over_add(before, now, keep);
        let number = |visit: Visit| visit.1;
        let (left, right) = (visitors(before, tile), visitors(now, tile));
        let all = visitors(visits(places, side, n), tile);
        assert(all =~= left + right) by {
            assert((before.filter(keep) + now.filter(keep)).map_values(number) =~= before.filter(
                keep,
            ).map_values(number) + now.filter(keep).map_values(number));
        }
        if right.len() >= 2 {
            lemma_kept_in_order(now, keep, 0, 1);
            let (k, l) = choose|k: int, l: int|
                0 <= k < l < now.len() && #[trigger] now[k] == now.filter(keep)[0]
                    && #[trigger] now[l] == now.filter(keep)[1];
            lemma_kept_are_some(now, keep, 0);
            lemma_kept_are_some(now, keep, 1);
            assert(tiles[k] == tile && tiles[l] == tile);
        }
        assert forall|i: int| 0 <= i < right.len() implies #[trigger] right[i] == n - 1 by {
            lemma_kept_are_some(now, keep, i);
        }
        assert forall|i: int, j: int| 0 <= i < j < all.len() implies (#[trigger] all[i]) < (
        #[trigger] all[j]) by {
            assert(all[i] == left[i]);
            if j < left.len() {
                assert(all[j] == left[j]);
            } else {
                assert(all[j] == right[j - left.len()]);
            }
        }
    }
}

/// Where no site is wider than the world, the cells of a chunk stand in the order of their
/// positions, each once.
pub proof fn law_cells_stand_once_and_in_order(
    chunks: Seq<Chunk>,
    sites: Seq<Site>,
    places: Seq<SitePlace>,
    base_z: u8,
    band_count: int,
    c: int,
    i: int,
    j: int,
)
    requires
        places.len() == sites.len(),
        places.len() <= usize::MAX,
        base_z <= 30,
        forall|s: int|
            0 <= s < places.len() ==> is_narrow(
                #[trigger] places[s],
                pow2(base_z as nat) as int,
            ),
        forall|s: int, t: int|
            0 <= s < t < sites.len() ==> (#[trigger] sites[s]).point_id < (
            #[trigger] sites[t]).point_id,
        are_chunks(
            chunks,
            sites,
            visits(places, pow2(base_z as nat) as int, places.len()),
            base_z,
            band_count,
        ),
        0 <= c < chunks.len(),
        0 <= i < j < chunks[c].1.point_ids@.len(),
    ensures
        chunks[c].1.point_ids@[i] < chunks[c].1.point_ids@[j],
{
    let side = pow2(base_z as nat) as int;
    lemma_side(base_z);
    let n = places.len();
    let all = visits(places, side, n);
    assert(is_some_chunk(chunks[c], sites, all, base_z, band_count));
    let at = choose|tile: (u32, u32)|
        #[trigger] is_chunk_of(chunks[c], tile, sites, all, base_z, band_count);
    let numbers = visitors(all, at);
    assert(holds_sites(chunks[c].1, sites, numbers, band_count));
    lemma_visitors_differ(places, side, n, at);
    lemma_visitors_ordered(places, side, n, at);
    assert(numbers[i] < numbers[j]);
    assert(numbers[j] < n);
    assert(sites[numbers[i] as int].point_id < sites[numbers[j] as int].point_id);
}

/// What was read in a cell reaches the product: the tiles of a product have a column for each of its
/// kind's bands, in their order, and the value at a place of band `b` is one that was read for band
/// `b` in the cell with the position at that place, or zero where none was; its width is one that
/// was given for the cell.
pub proof fn law_products_hold_what_was_read(
    points: Seq<PointValue>,
    sites: Seq<Site>,
    places: Seq<SitePlace>,
    product_id: GpvProductIdentifier,
    band_specs: Seq<BandSpec>,
    product: PreparedProduct,
    c: int,
    i: int,
)
    requires
        are_placeable(points),
        are_sites_of(points, sites),
        places.len() == sites.len(),
        places.len() <= usize::MAX,
        product_id.kind.base_z <= 30,
        1 <= product_id.kind.bands@.len() <= 4,
        is_prepared(product, product_id, band_specs, sites, places),
        0 <= c < product.chunks@.len(),
        0 <= i < product.chunks@[c].1.point_ids@.len(),
    ensures
        product.chunks@[c].1.bands@.len() == product_id.kind.bands@.len(),
        has_width(
            points,
            product.chunks@[c].1.point_ids@[i],
            product.chunks@[c].1.point_powers@[i],
        ),
        forall|b: int|
            0 <= b < product_id.kind.bands@.len() ==> is_reading(
                points,
                product.chunks@[c].1.point_ids@[i],
                b,
                plain((#[trigger] product.chunks@[c].1.bands@[b]).values@[i]),
            ),
{
    let sorted = choose|sorted: Seq<PointValue>|
        {
            &&& in_position_order(sorted)
            &&& sorted.to_multiset() == all_located(points).to_multiset()
            &&& site_views(sites) == #[trigger] sites_of(sorted, sorted.len())
        };
    law_tiles_hold_what_was_read(
        points,
        sorted,
        sites,
        places,
        product.chunks@,
        product_id.kind.base_z,
        product_id.kind.bands@.len() as int,
        c,
        i,
    );
}

/// Every cell in which something was read stands in every tile that its site reaches: there is a
/// tile of the product at the position with an entry for the cell.
pub proof fn law_readings_reach_the_product(
    points: Seq<PointValue>,
    sites: Seq<Site>,
    places: Seq<SitePlace>,
    product_id: GpvProductIdentifier,
    band_specs: Seq<BandSpec>,
    product: PreparedProduct,
    k: int,
)
    requires
        are_placeable(points),
        are_sites_of(points, sites),
        places.len() == sites.len(),
        places.len() <= usize::MAX,
        product_id.kind.base_z <= 30,
        is_prepared(product, product_id, band_specs, sites, places),
        0 <= k < points.len(),
    ensures
        exists|s: int|
            {
                &&& 0 <= s < sites.len()
                &&& lies_at(points[k], (#[trigger] sites[s]).point_id)
                &&& forall|at: (u32, u32)|
                    reaches_tile(
                        places[s],
                        pow2(product_id.kind.base_z as nat) as int,
                        at,
                    ) ==> #[trigger] stands_at(product, at, sites[s])
            },
{
    let base_z = product_id.kind.base_z;
    let side = pow2(base_z as nat) as int;
    let sorted = choose|sorted: Seq<PointValue>|
        {
            &&& in_position_order(sorted)
            &&& sorted.to_multiset() == all_located(points).to_multiset()
            &&& site_views(sites) == #[trigger] sites_of(sorted, sorted.len())
        };
    law_sites_hold_what_was_read(points, sorted, sites);
    assert(has_cell(sites, points[k]));
    let s = choose|s: int|
        0 <= s < sites.len() && lies_at(points[k], (#[trigger] sites[s]).point_id);
    assert forall|at: (u32, u32)|
        reaches_tile(places[s], side, at) implies #[trigger] stands_at(product, at, sites[s]) by {
        law_sites_stand_where_they_reach(
            product.chunks@,
            sites,
            places,
            base_z,
            product_id.kind.bands@.len() as int,
            s,
            at,
        );
    }
}

/// Some entry of the product's tile at a column and row is the site.
pub open spec fn stands_at(product: PreparedProduct, at: (u32, u32), site: Site) -> bool {
    exists|c: int, i: int|
        {
            &&& 0 <= c < product.chunks@.len()
            &&& product.chunks@[c].0 == curve(product.spec.base_z as nat, at.0 as int, at.1 as int)
            &&& 0 <= i < product.chunks@[c].1.point_ids@.len()
            &&& #[trigger] holds_site(product.chunks@[c].1, i, site)
        }
}

} // verus!
