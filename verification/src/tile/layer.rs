//! The cells that a layer shows in a tile.
use crate::geo::LngLat;
use crate::hilbert::{
    curve, hilbert_to_xy, in_square, law_curve_refines, law_positions_are_taken,
    law_positions_differ,
};
use crate::model::{
    law_ranges_find_their_tiles, Aggregation, BaseTile, CompactOptI32, PreparedProduct,
};
use crate::quantize::{all_classes, all_well_formed};
use crate::tile::points::{
    aggregate_band, aggregate_fits, aggregate_within, aggregated, all_well_counted, combined,
    counted, entries, has_key, is_gathered, is_shown_as, law_combining_associates,
    law_gathered_cells_are_shown, law_shown_cells_stand_apart, law_shown_cells_were_gathered,
    lemma_aggregate_packable, lemma_aggregate_well_counted, lemma_combined_packable,
    lemma_merged_well_counted, lemma_present, merge_fits, merged, narrow, new_points, packable,
    plain, point_count, present, shows_cell, takes_cell, try_merge_point, well_counted, with_cell, Cell, Entry, Finish,
    Point, Points,
};
use crate::vectors::lemma_kept_are_some;
use crate::tile::{
    chunk_range, is_tile, law_range_holds_what_overlaps, overlaps, shifted, zxy_to_chunk_id_range,
    TileContext, Zxy,
};
use vstd::arithmetic::div_mod::*;
use vstd::arithmetic::power2::*;
use vstd::prelude::*;
use vstd::slice::slice_subrange;

verus! {

/// The corners of a cell.
pub type Corners = (LngLat, LngLat);

// ---------------------------------------------------------------------------
// Groups of cells that become one
// ---------------------------------------------------------------------------

/// The column and row of a cell, by its position along the curve through the grid.
pub open spec fn grid_cell(id: u32) -> (int, int) {
    choose|cell: (int, int)|
        #![trigger curve(16, cell.0, cell.1)]
        in_square(16, cell.0, cell.1) && curve(16, cell.0, cell.1) == id
}

/// What the cells of a group have in common: the cell of the coarser grid that they lie in, and
/// the power of their width.
pub open spec fn group_key(id: u32, power: u8, scale: nat) -> (int, int, u8) {
    let (x, y) = grid_cell(id);
    let width = pow2(scale) as int;
    (x - x % width, y - y % width, power)
}

/// The keys of all cells of a tile.
pub open spec fn group_keys(tile: BaseTile, scale: nat) -> Seq<(int, int, u8)> {
    Seq::new(
        tile.point_ids@.len(),
        |i: int| group_key(tile.point_ids@[i], tile.point_powers@[i], scale),
    )
}

/// The places among the first `n` at which a key differs from the one before.
pub open spec fn run_starts(keys: Seq<(int, int, u8)>, n: nat) -> Seq<int>
    decreases n,
{
    if n == 0 {
        Seq::empty()
    } else {
        let before = run_starts(keys, (n - 1) as nat);
        if n == 1 || keys[n - 1] != keys[n - 2] {
            before.push(n - 1)
        } else {
            before
        }
    }
}

/// The runs of cells of a tile that become one cell each: their first places.
pub open spec fn groups_of(tile: BaseTile, scale: nat) -> Seq<int> {
    run_starts(group_keys(tile, scale), tile.point_ids@.len())
}

/// The place behind the last of the `g`-th run.
pub open spec fn group_end(starts: Seq<int>, count: int, g: int) -> int {
    if g + 1 < starts.len() {
        starts[g + 1]
    } else {
        count
    }
}

/// A run of cells that become one.
#[derive(Clone, Copy, Debug, PartialEq, Eq)]
pub struct PointGroup {
    pub grid_x: u32,
    pub grid_y: u32,
    pub power: u8,
    pub begin: usize,
    pub end: usize,
}

/// The group is the `g`-th run among the first `n` keys; `power` is that of the cell it becomes.
pub open spec fn is_run(
    group: PointGroup,
    keys: Seq<(int, int, u8)>,
    scale: nat,
    n: nat,
    g: int,
) -> bool {
    let starts = run_starts(keys, n);
    let key = keys[starts[g]];
    &&& group.begin == starts[g]
    &&& group.end == group_end(starts, n as int, g)
    &&& group.begin < group.end <= n
    &&& group.grid_x == key.0
    &&& group.grid_y == key.1
    &&& group.grid_x < 0x1_0000
    &&& group.grid_y < 0x1_0000
    &&& group.power == if key.2 as int >= scale {
        key.2 as int
    } else {
        scale as int
    }
}

/// The group is the `g`-th run of the tile.
pub open spec fn is_group(group: PointGroup, tile: BaseTile, scale: nat, g: int) -> bool {
    is_run(group, group_keys(tile, scale), scale, tile.point_ids@.len(), g)
}

proof fn lemma_run_starts(keys: Seq<(int, int, u8)>, n: nat)
    requires
        n <= keys.len(),
    ensures
        run_starts(keys, n).len() <= n,
        n > 0 ==> run_starts(keys, n).len() > 0 && run_starts(keys, n)[0] == 0,
        forall|g: int| 0 <= g < run_starts(keys, n).len() ==> 0 <= #[trigger] run_starts(keys, n)[g] < n,
        forall|g: int, h: int|
            0 <= g < h < run_starts(keys, n).len() ==> run_starts(keys, n)[g] < run_starts(
                keys,
                n,
            )[h],
    decreases n,
{
    if n > 0 {
        lemma_run_starts(keys, (n - 1) as nat);
    }
}

/// The cells of a run share their key, and neighbouring runs differ in it; the runs follow one
/// another from the first cell to the last.
pub proof fn law_groups_are_runs(tile: BaseTile, scale: nat, g: int, i: int)
    requires
        tile.well_formed(),
        0 <= g < groups_of(tile, scale).len(),
        groups_of(tile, scale)[g] <= i < group_end(
            groups_of(tile, scale),
            tile.point_ids@.len() as int,
            g,
        ),
    ensures
        0 <= i < tile.point_ids@.len(),
        group_keys(tile, scale)[i] == group_keys(tile, scale)[groups_of(tile, scale)[g]],
        groups_of(tile, scale)[0] == 0,
        g + 1 < groups_of(tile, scale).len() ==> group_keys(tile, scale)[groups_of(tile, scale)[g
            + 1]] != group_keys(tile, scale)[groups_of(tile, scale)[g]],
{
    let keys = group_keys(tile, scale);
    let n = tile.point_ids@.len();
    lemma_run_starts(keys, n);
    lemma_runs(keys, n, g, i);
    if g + 1 < groups_of(tile, scale).len() {
        let next = groups_of(tile, scale)[g + 1];
        lemma_runs(keys, n, g, next - 1);
        lemma_start_differs(keys, n, g + 1);
    }
}

proof fn lemma_start_differs(keys: Seq<(int, int, u8)>, n: nat, g: int)
    requires
        n <= keys.len(),
        1 <= g < run_starts(keys, n).len(),
    ensures
        run_starts(keys, n)[g] >= 1,
        keys[run_starts(keys, n)[g]] != keys[run_starts(keys, n)[g] - 1],
    decreases n,
{
    lemma_run_starts(keys, n);
    let before = run_starts(keys, (n - 1) as nat);
    if g < before.len() {
        lemma_start_differs(keys, (n - 1) as nat, g);
    }
}

proof fn lemma_runs(keys: Seq<(int, int, u8)>, n: nat, g: int, i: int)
    requires
        n <= keys.len(),
        0 <= g < run_starts(keys, n).len(),
        run_starts(keys, n)[g] <= i < group_end(run_starts(keys, n), n as int, g),
    ensures
        keys[i] == keys[run_starts(keys, n)[g]],
    decreases n,
{
    lemma_run_starts(keys, n);
    let starts = run_starts(keys, n);
    let before = run_starts(keys, (n - 1) as nat);
    lemma_run_starts(keys, (n - 1) as nat);
    if g < before.len() {
        if i < n - 1 {
            lemma_runs(keys, (n - 1) as nat, g, i);
        } else {
            assert(starts == before);
            assert(g == before.len() - 1);
            lemma_runs(keys, (n - 1) as nat, g, i - 1);
        }
    }
}

/// The column and row of the coarser grid that a cell lies in.
fn aligned_cell(id: u32, scale: u8) -> (cell: (u32, u32))
    requires
        scale <= 31,
    ensures
        cell.0 == group_key(id, 0, scale as nat).0,
        cell.1 == group_key(id, 0, scale as nat).1,
        cell.0 < 0x1_0000,
        cell.1 < 0x1_0000,
{
    proof {
        lemma2_to64();
        assert(2 * 16nat == 32);
    }
    let (x, y) = hilbert_to_xy(16, id as u64);
    let width: u32 = narrow_shift(scale);
    proof {
        assert(curve(16, x as int, y as int) == id);
        let cell = (x as int, y as int);
        assert(in_square(16, cell.0, cell.1) && curve(16, cell.0, cell.1) == id);
        let chosen = grid_cell(id);
        law_positions_differ(16, chosen.0, chosen.1, x as int, y as int);
        lemma_mod_bound(x as int, width as int);
        lemma_mod_bound(y as int, width as int);
        lemma_mod_decreases(x as nat, width as nat);
        lemma_mod_decreases(y as nat, width as nat);
    }
    (x - x % width, y - y % width)
}

/// 2^`n`.
fn narrow_shift(n: u8) -> (power: u32)
    requires
        n <= 31,
    ensures
        power == pow2(n as nat),
        power >= 1,
{
    proof {
        lemma2_to64();
        lemma2_to64_rest();
        if n < 31 {
            lemma_pow2_strictly_increases(n as nat, 31);
        }
    }
    shifted(n) as u32
}

/// The runs of cells of a tile that become one cell each.
///
/// `scale` is the power of two by which the tile is coarser than the grid.
pub fn point_groups(tile: &BaseTile, scale: u8) -> (groups: Vec<PointGroup>)
    requires
        tile.well_formed(),
        scale <= 31,
    ensures
        groups@.len() == groups_of(*tile, scale as nat).len(),
        forall|g: int|
            0 <= g < groups@.len() ==> is_group(#[trigger] groups@[g], *tile, scale as nat, g),
{
    let ghost keys = group_keys(*tile, scale as nat);
    let n: usize = tile.point_ids.len();
    let mut groups: Vec<PointGroup> = Vec::new();
    let mut last_power: u8 = 0;
    for i in 0..n
        invariant
            tile.well_formed(),
            scale <= 31,
            n == tile.point_ids@.len(),
            keys == group_keys(*tile, scale as nat),
            groups@.len() == run_starts(keys, i as nat).len(),
            i > 0 ==> groups@.len() > 0 && last_power == keys[i - 1].2
                && groups@[groups@.len() - 1].grid_x == keys[i - 1].0
                && groups@[groups@.len() - 1].grid_y == keys[i - 1].1,
            forall|g: int|
                0 <= g < groups@.len() ==> is_run(
                    #[trigger] groups@[g],
                    keys,
                    scale as nat,
                    i as nat,
                    g,
                ),
    {
        let (grid_x, grid_y) = aligned_cell(tile.point_ids[i], scale);
        let point_power: u8 = tile.point_powers[i];
        let ghost starts = run_starts(keys, i as nat);
        let ghost old_groups = groups@;
        proof {
            assert(keys[i as int] == (grid_x as int, grid_y as int, point_power));
        }
        let count: usize = groups.len();
        if count > 0 && groups[count - 1].grid_x == grid_x && groups[count - 1].grid_y == grid_y
            && last_power == point_power {
            let mut group = groups[count - 1];
            group.end = i + 1;
            groups.set(count - 1, group);
            proof {
                assert(i > 0);
                lemma_run_starts(keys, i as nat);
                assert(run_starts(keys, (i + 1) as nat) == starts);
                assert forall|g: int| 0 <= g < groups@.len() implies is_run(
                    #[trigger] groups@[g],
                    keys,
                    scale as nat,
                    (i + 1) as nat,
                    g,
                ) by {
                    assert(is_run(old_groups[g], keys, scale as nat, i as nat, g));
                }
            }
        } else {
            let power: u8 = if point_power >= scale {
                point_power
            } else {
                scale
            };
            groups.push(PointGroup { grid_x, grid_y, power, begin: i, end: i + 1 });
            last_power = point_power;
            proof {
                let now = run_starts(keys, (i + 1) as nat);
                lemma_run_starts(keys, i as nat);
                assert(i == 0 || keys[i as int] != keys[i - 1]);
                assert(now == starts.push(i as int));
                assert forall|g: int| 0 <= g < groups@.len() implies is_run(
                    #[trigger] groups@[g],
                    keys,
                    scale as nat,
                    (i + 1) as nat,
                    g,
                ) by {
                    if g < old_groups.len() {
                        assert(is_run(old_groups[g], keys, scale as nat, i as nat, g));
                    }
                }
            }
        }
    }
    groups
}

// ---------------------------------------------------------------------------
// Gathering
// ---------------------------------------------------------------------------

/// How cells are gathered into a tile.
#[derive(Debug)]
pub struct Gathering<'a> {
    pub context: &'a TileContext,
    pub scale: u8,
    pub aggregation: Aggregation,
    pub band_count: usize,
}

/// The cell that a run of cells becomes.
pub open spec fn group_cell(
    tile: BaseTile,
    begin: int,
    end: int,
    power: u8,
    aggregation: Aggregation,
) -> Cell {
    Cell {
        values: Seq::new(
            4,
            |b: int|
                if b < tile.bands@.len() {
                    aggregated(aggregation, tile.bands@[b].values@.subrange(begin, end))
                } else {
                    None
                },
        ),
        counts: Seq::new(
            4,
            |b: int|
                if b < tile.bands@.len() {
                    counted(aggregation, tile.bands@[b].values@.subrange(begin, end))
                } else {
                    0
                },
        ),
        power,
    }
}

/// The sums over a run of cells fit in 32 bits.
pub open spec fn group_fits(tile: BaseTile, begin: int, end: int, aggregation: Aggregation) -> bool {
    forall|b: int|
        0 <= b < tile.bands@.len() ==> aggregate_fits(
            aggregation,
            (#[trigger] tile.bands@[b]).values@.subrange(begin, end),
        )
}

impl<'a> Gathering<'a> {
    /// There are at most four bands, and the width of a cell is a 32-bit integer.
    pub open spec fn well_formed(self) -> bool {
        self.band_count <= 4 && self.scale <= 31
    }

    /// The cells with the `g`-th run of a tile, where it is visible; nothing where a sum leaves
    /// 32 bits.
    pub open spec fn with_group(
        self,
        cells: Seq<Entry>,
        tile: BaseTile,
        corners: Seq<Corners>,
        g: int,
    ) -> Option<Seq<Entry>> {
        let starts = groups_of(tile, self.scale as nat);
        let begin = starts[g];
        let end = group_end(starts, tile.point_ids@.len() as int, g);
        let key = group_keys(tile, self.scale as nat)[begin];
        let power = if key.2 >= self.scale {
            key.2
        } else {
            self.scale
        };
        let place = (key.0 as u32, key.1 as u32);
        let incoming = group_cell(tile, begin, end, power, self.aggregation);
        if !self.context.shows(corners[g]) {
            Some(cells)
        } else if group_fits(tile, begin, end, self.aggregation) && takes_cell(
            cells,
            place,
            incoming,
            self.aggregation,
            self.band_count as int,
        ) {
            Some(with_cell(cells, place, incoming, self.aggregation, self.band_count as int))
        } else {
            None
        }
    }

    /// The cells with the first `n` runs of a tile.
    pub open spec fn with_groups(
        self,
        cells: Seq<Entry>,
        tile: BaseTile,
        corners: Seq<Corners>,
        n: nat,
    ) -> Option<Seq<Entry>>
        decreases n,
    {
        if n == 0 {
            Some(cells)
        } else {
            match self.with_groups(cells, tile, corners, (n - 1) as nat) {
                None => None,
                Some(before) => self.with_group(before, tile, corners, n - 1),
            }
        }
    }

    /// The cells with a whole tile.
    pub open spec fn with_tile(self, cells: Seq<Entry>, tile: BaseTile, corners: Seq<Corners>) -> Option<
        Seq<Entry>,
    > {
        self.with_groups(cells, tile, corners, groups_of(tile, self.scale as nat).len())
    }

    /// The cells of the first `n` tiles.
    pub open spec fn of_tiles(
        self,
        tiles: Seq<(u64, BaseTile)>,
        corners: Seq<Vec<Corners>>,
        n: nat,
    ) -> Option<Seq<Entry>>
        decreases n,
    {
        if n == 0 {
            Some(Seq::empty())
        } else {
            match self.of_tiles(tiles, corners, (n - 1) as nat) {
                None => None,
                Some(before) => self.with_tile(before, tiles[n - 1].1, corners[n - 1]@),
            }
        }
    }

    proof fn lemma_groups_failed(
        self,
        cells: Seq<Entry>,
        tile: BaseTile,
        corners: Seq<Corners>,
        n: nat,
        m: nat,
    )
        requires
            n <= m,
            self.with_groups(cells, tile, corners, n) is None,
        ensures
            self.with_groups(cells, tile, corners, m) is None,
        decreases m,
    {
        if n < m {
            self.lemma_groups_failed(cells, tile, corners, n, (m - 1) as nat);
        }
    }

    proof fn lemma_tiles_failed(
        self,
        tiles: Seq<(u64, BaseTile)>,
        corners: Seq<Vec<Corners>>,
        n: nat,
        m: nat,
    )
        requires
            n <= m,
            self.of_tiles(tiles, corners, n) is None,
        ensures
            self.of_tiles(tiles, corners, m) is None,
        decreases m,
    {
        if n < m {
            self.lemma_tiles_failed(tiles, corners, n, (m - 1) as nat);
        }
    }

    proof fn lemma_groups_well_counted(
        self,
        cells: Seq<Entry>,
        tile: BaseTile,
        corners: Seq<Corners>,
        n: nat,
    )
        requires
            self.well_formed(),
            self.aggregation == Aggregation::RoughAvg,
            all_well_counted(cells, self.band_count as int),
        ensures
            self.with_groups(cells, tile, corners, n) matches Some(after) ==> all_well_counted(
                after,
                self.band_count as int,
            ),
        decreases n,
    {
        if n > 0 {
            self.lemma_groups_well_counted(cells, tile, corners, (n - 1) as nat);
            if let Some(before) = self.with_groups(cells, tile, corners, (n - 1) as nat) {
                let starts = groups_of(tile, self.scale as nat);
                let begin = starts[n - 1];
                let end = group_end(starts, tile.point_ids@.len() as int, n - 1);
                let key = group_keys(tile, self.scale as nat)[begin];
                let power = if key.2 >= self.scale {
                    key.2
                } else {
                    self.scale
                };
                let incoming = group_cell(tile, begin, end, power, self.aggregation);
                assert(well_counted(incoming, self.band_count as int)) by {
                    assert forall|b: int| 0 <= b < self.band_count implies (
                    #[trigger] incoming.counts[b]) >= 0 && (incoming.values[b] is Some
                        ==> incoming.counts[b] >= 1) by {
                        if b < tile.bands@.len() {
                            lemma_aggregate_well_counted(
                                tile.bands@[b].values@.subrange(begin, end),
                            );
                        }
                    }
                }
                lemma_merged_well_counted(
                    before,
                    (key.0 as u32, key.1 as u32),
                    incoming,
                    self.band_count as int,
                );
            }
        }
    }

    /// Gathered sums count at least one value wherever they have one.
    pub proof fn lemma_tiles_well_counted(
        self,
        tiles: Seq<(u64, BaseTile)>,
        corners: Seq<Vec<Corners>>,
        n: nat,
    )
        requires
            self.well_formed(),
            self.aggregation == Aggregation::RoughAvg,
        ensures
            self.of_tiles(tiles, corners, n) matches Some(after) ==> all_well_counted(
                after,
                self.band_count as int,
            ),
        decreases n,
    {
        if n > 0 {
            self.lemma_tiles_well_counted(tiles, corners, (n - 1) as nat);
            if let Some(before) = self.of_tiles(tiles, corners, (n - 1) as nat) {
                self.lemma_groups_well_counted(
                    before,
                    tiles[n - 1].1,
                    corners[n - 1]@,
                    groups_of(tiles[n - 1].1, self.scale as nat).len(),
                );
            }
        }
    }

    /// Brings a run of cells together; nothing where a sum leaves 32 bits.
    fn gather_group(&self, tile: &BaseTile, group: &PointGroup) -> (result: Option<Point>)
        requires
            tile.well_formed(),
            group.begin <= group.end <= tile.point_ids@.len(),
        ensures
            result is Some == group_fits(
                *tile,
                group.begin as int,
                group.end as int,
                self.aggregation,
            ),
            result matches Some(point) ==> point@ == group_cell(
                *tile,
                group.begin as int,
                group.end as int,
                group.power,
                self.aggregation,
            ),
    {
        let none = CompactOptI32::none();
        let mut point = Point {
            values: [none, none, none, none],
            counts: [0, 0, 0, 0],
            power: group.power,
        };
        let ghost expected = group_cell(
            *tile,
            group.begin as int,
            group.end as int,
            group.power,
            self.aggregation,
        );
        let n: usize = tile.bands.len();
        for b in 0..n
            invariant
                tile.well_formed(),
                n == tile.bands@.len(),
                group.begin <= group.end <= tile.point_ids@.len(),
                expected == group_cell(
                    *tile,
                    group.begin as int,
                    group.end as int,
                    group.power,
                    self.aggregation,
                ),
                point.power == group.power,
                forall|k: int|
                    0 <= k < b ==> aggregate_fits(
                        self.aggregation,
                        (#[trigger] tile.bands@[k]).values@.subrange(
                            group.begin as int,
                            group.end as int,
                        ),
                    ),
                forall|k: int| 0 <= k < b ==> (#[trigger] point@.values[k]) == expected.values[k],
                forall|k: int| 0 <= k < b ==> (#[trigger] point@.counts[k]) == expected.counts[k],
                forall|k: int| b <= k < 4 ==> (#[trigger] point@.values[k]) is None,
                forall|k: int| b <= k < 4 ==> (#[trigger] point@.counts[k]) == 0,
        {
            let ghost before = point;
            proof {
                assert(tile.bands@[b as int].values@.len() == tile.point_ids@.len());
            }
            let values = slice_subrange(tile.bands[b].values.as_slice(), group.begin, group.end);
            if !aggregate_within(values, self.aggregation) {
                proof {
                    assert(!aggregate_fits(
                        self.aggregation,
                        tile.bands@[b as int].values@.subrange(
                            group.begin as int,
                            group.end as int,
                        ),
                    ));
                }
                return None;
            }
            let (value, count) = aggregate_band(values, self.aggregation);
            point.values[b] = value;
            point.counts[b] = count;
            proof {
                assert forall|k: int| 0 <= k < 4 && k != b implies (#[trigger] point@.values[k])
                    == before@.values[k] && point@.counts[k] == before@.counts[k] by {}
                assert forall|k: int| 0 <= k < b + 1 implies (#[trigger] point@.counts[k])
                    == expected.counts[k] by {
                    assert(k < b ==> before@.counts[k] == expected.counts[k]);
                    assert(k != b ==> point@.values[k] == before@.values[k]);
                }
                assert forall|k: int| b + 1 <= k < 4 implies (#[trigger] point@.counts[k]) == 0 by {
                    assert(before@.counts[k] == 0);
                    assert(point@.values[k] == before@.values[k]);
                }
            }
        }
        proof {
            assert(point@.values =~= expected.values);
            assert(point@.counts =~= expected.counts);
        }
        Some(point)
    }

    /// Gathers the visible cells of a tile; nothing where a sum leaves 32 bits.
    ///
    /// `corners` holds the corners of the cell that each run of the tile becomes.
    pub fn gather_tile(&self, points: Points, tile: &BaseTile, corners: &Vec<Corners>) -> (result:
        Option<Points>)
        requires
            self.well_formed(),
            tile.well_formed(),
            corners@.len() == groups_of(*tile, self.scale as nat).len(),
        ensures
            match result {
                Some(gathered) => self.with_tile(entries(points), *tile, corners@) == Some(
                    entries(gathered),
                ),
                None => self.with_tile(entries(points), *tile, corners@) is None,
            },
    {
        let ghost start = entries(points);
        let mut gathered = points;
        let groups = point_groups(tile, self.scale);
        for g in 0..groups.len()
            invariant
                self.well_formed(),
                tile.well_formed(),
                groups@.len() == groups_of(*tile, self.scale as nat).len(),
                corners@.len() == groups@.len(),
                forall|k: int|
                    0 <= k < groups@.len() ==> is_group(
                        #[trigger] groups@[k],
                        *tile,
                        self.scale as nat,
                        k,
                    ),
                self.with_groups(start, *tile, corners@, g as nat) == Some(entries(gathered)),
                start == entries(points),
        {
            let group = &groups[g];
            proof {
                assert(is_group(groups@[g as int], *tile, self.scale as nat, g as int));
                if self.with_groups(start, *tile, corners@, (g + 1) as nat) is None {
                    self.lemma_groups_failed(
                        start,
                        *tile,
                        corners@,
                        (g + 1) as nat,
                        groups@.len(),
                    );
                }
            }
            if self.context.visible(corners[g]) {
                let incoming = match self.gather_group(tile, group) {
                    Some(incoming) => incoming,
                    None => return None,
                };
                if !try_merge_point(
                    &mut gathered,
                    (group.grid_x, group.grid_y),
                    incoming,
                    self.aggregation,
                    self.band_count,
                ) {
                    return None;
                }
            }
        }
        Some(gathered)
    }
}

/// What a layer shows in a tile.
pub enum LayerCells {
    /// No cell.
    Nothing,
    /// A sum of values left 32 bits.
    Overflow,
    /// These cells.
    Cells(Points),
}

/// By which power of two a tile is coarser than the grid.
pub open spec fn coarseness(maximum_detail_zoom: u8, z: u8) -> u8 {
    if maximum_detail_zoom > z {
        (maximum_detail_zoom - z) as u8
    } else {
        0
    }
}

/// The product has at most four bands, its tiles are well formed and in order.
pub open spec fn is_showable(product: PreparedProduct) -> bool {
    &&& product.chunks_in_order()
    &&& product.spec.base_z <= 31
    &&& product.spec.band_specs@.len() <= 4
    &&& product.spec.quantize@.len() <= 4
    &&& product.spec.omit@.len() <= 4
    &&& all_well_formed(all_classes(product.spec.quantize@))
    &&& forall|i: int|
        0 <= i < product.chunks@.len() ==> (#[trigger] product.chunks@[i]).1.well_formed()
}

/// The tiles of a product that overlap a tile.
pub open spec fn tiles_under(product: PreparedProduct, zxy: Zxy) -> Seq<(u64, BaseTile)> {
    let range = chunk_range(product.spec.base_z, zxy);
    product.chunks_between(range.0, range.1)
}

/// There are corners for every run of every tile.
pub open spec fn corners_match(
    tiles: Seq<(u64, BaseTile)>,
    corners: Seq<Vec<Corners>>,
    scale: nat,
) -> bool {
    &&& corners.len() == tiles.len()
    &&& forall|i: int|
        0 <= i < tiles.len() ==> (#[trigger] corners[i])@.len() == groups_of(tiles[i].1, scale).len()
}

/// The tiles of a product that overlap a tile.
pub fn chunks_under<'a>(product: &'a PreparedProduct, zxy: Zxy) -> (tiles: &'a [(u64, BaseTile)])
    requires
        product.chunks_in_order(),
        product.spec.base_z <= 31,
        is_tile(zxy),
    ensures
        tiles@ == tiles_under(*product, zxy),
{
    let (begin, end) = zxy_to_chunk_id_range(product.spec.base_z, zxy);
    product.chunks_in_range(begin, end)
}

/// The cells that a product shows in a tile: the visible cells of the overlapping tiles, brought
/// together cell by cell of the coarser grid, and then finished. Nothing where a sum leaves 32
/// bits.
pub open spec fn shown_cells(
    context: TileContext,
    product: PreparedProduct,
    maximum_detail_zoom: u8,
    corners: Seq<Vec<Corners>>,
) -> Option<Seq<Entry>> {
    let gathering = Gathering {
        context: &context,
        scale: coarseness(maximum_detail_zoom, context.zxy.0),
        aggregation: product.spec.aggregation,
        band_count: product.spec.band_specs.len(),
    };
    let finish = Finish {
        aggregation: product.spec.aggregation,
        quantize: &product.spec.quantize,
        omit: &product.spec.omit,
        band_count: product.spec.band_specs.len(),
    };
    let tiles = tiles_under(product, context.zxy);
    match gathering.of_tiles(tiles, corners, tiles.len()) {
        None => None,
        Some(cells) => Some(finish.cells(cells)),
    }
}

/// A product without tiles that overlap a tile shows nothing in it.
pub proof fn law_nothing_is_shown_without_tiles(
    context: TileContext,
    product: PreparedProduct,
    maximum_detail_zoom: u8,
    corners: Seq<Vec<Corners>>,
)
    requires
        tiles_under(product, context.zxy).len() == 0,
    ensures
        shown_cells(context, product, maximum_detail_zoom, corners) == Some(Seq::<Entry>::empty()),
{
    let cells = shown_cells(context, product, maximum_detail_zoom, corners)->Some_0;
    reveal(Seq::filter);
    assert(cells =~= Seq::empty());
}

/// The cells that a layer shows in a tile: the visible cells of the overlapping tiles are brought
/// together cell by cell of the coarser grid, and then finished.
///
/// `maximum_detail_zoom` is the zoom at which a cell of the grid is as wide as a pixel, `corners`
/// holds the corners of the cells that the runs of each overlapping tile become.
pub fn layer_points(
    context: &TileContext,
    product: &PreparedProduct,
    maximum_detail_zoom: u8,
    corners: &Vec<Vec<Corners>>,
) -> (result: LayerCells)
    requires
        is_showable(*product),
        is_tile(context.zxy),
        coarseness(maximum_detail_zoom, context.zxy.0) <= 31,
        corners_match(
            tiles_under(*product, context.zxy),
            corners@,
            coarseness(maximum_detail_zoom, context.zxy.0) as nat,
        ),
    ensures
        match shown_cells(*context, *product, maximum_detail_zoom, corners@) {
            None => result is Overflow,
            Some(cells) => match result {
                LayerCells::Nothing => cells.len() == 0,
                LayerCells::Overflow => false,
                LayerCells::Cells(points) => entries(points) == cells && cells.len() > 0,
            },
        },
{
    let z: u8 = context.zxy.0;
    let scale: u8 = if maximum_detail_zoom > z {
        maximum_detail_zoom - z
    } else {
        0
    };
    let gathering = Gathering {
        context,
        scale,
        aggregation: product.spec.aggregation,
        band_count: product.spec.band_specs.len(),
    };
    let finish = Finish {
        aggregation: product.spec.aggregation,
        quantize: &product.spec.quantize,
        omit: &product.spec.omit,
        band_count: product.spec.band_specs.len(),
    };
    let tiles = chunks_under(product, context.zxy);
    let ghost under = tiles_under(*product, context.zxy);
    let mut points = new_points();
    proof {
        assert(entries(points) =~= Seq::empty());
        let range = chunk_range(product.spec.base_z, context.zxy);
        assert forall|i: int| 0 <= i < under.len() implies (#[trigger] under[i]).1.well_formed() by {
            lemma_kept_are_some(
                product.chunks@,
                |chunk: (u64, BaseTile)| range.0 <= chunk.0 < range.1,
                i,
            );
        }
    }
    let n: usize = tiles.len();
    for i in 0..n
        invariant
            n == tiles@.len(),
            tiles@ == under,
            gathering.well_formed(),
            corners_match(under, corners@, gathering.scale as nat),
            forall|k: int| 0 <= k < under.len() ==> (#[trigger] under[k]).1.well_formed(),
            gathering.of_tiles(under, corners@, i as nat) == Some(entries(points)),
            gathering.scale == coarseness(maximum_detail_zoom, context.zxy.0),
            gathering.context == context,
            gathering.aggregation == product.spec.aggregation,
            gathering.band_count == product.spec.band_specs@.len(),
            under == tiles_under(*product, context.zxy),
    {
        proof {
            assert(under[i as int].1.well_formed());
            assert(corners@[i as int]@.len() == groups_of(
                under[i as int].1,
                gathering.scale as nat,
            ).len());
            if gathering.of_tiles(under, corners@, (i + 1) as nat) is None {
                gathering.lemma_tiles_failed(under, corners@, (i + 1) as nat, n as nat);
            }
        }
        points = match gathering.gather_tile(points, &tiles[i].1, &corners[i]) {
            Some(points) => points,
            None => return LayerCells::Overflow,
        };
    }
    proof {
        if product.spec.aggregation == Aggregation::RoughAvg {
            gathering.lemma_tiles_well_counted(under, corners@, n as nat);
        }
    }
    finish.finish_points(&mut points);
    if point_count(&points) == 0 {
        return LayerCells::Nothing;
    }
    LayerCells::Cells(points)
}

/// The position of the coarser cell that a cell lies in.
pub open spec fn coarse_position(id: u32, scale: nat) -> int {
    id as int / pow2(2 * scale) as int
}

/// Cells lie in one cell of a coarser grid exactly where their positions fall into one run of the
/// curve.
pub proof fn law_coarse_cells_are_runs(a: u32, b: u32, power: u8, scale: nat)
    requires
        scale <= 16,
    ensures
        group_key(a, power, scale) == group_key(b, power, scale) <==> coarse_position(a, scale)
            == coarse_position(b, scale),
{
    lemma_grid_cell(a);
    lemma_grid_cell(b);
    let (ca, cb) = (grid_cell(a), grid_cell(b));
    let width = pow2(scale) as int;
    let coarse = (16 - scale) as nat;
    assert(coarse + scale == 16);
    lemma_pow2_pos(scale);
    law_curve_refines(coarse, scale, ca.0, ca.1);
    law_curve_refines(coarse, scale, cb.0, cb.1);
    lemma_fundamental_div_mod(ca.0, width);
    lemma_fundamental_div_mod(ca.1, width);
    lemma_fundamental_div_mod(cb.0, width);
    lemma_fundamental_div_mod(cb.1, width);
    let (qa, qb) = ((ca.0 / width, ca.1 / width), (cb.0 / width, cb.1 / width));
    if coarse_position(a, scale) == coarse_position(b, scale) {
        law_positions_differ(coarse, qa.0, qa.1, qb.0, qb.1);
    }
    if group_key(a, power, scale) == group_key(b, power, scale) {
        assert(qa.0 == qb.0 && qa.1 == qb.1) by (nonlinear_arith)
            requires
                width * qa.0 == width * qb.0,
                width * qa.1 == width * qb.1,
                width > 0,
        ;
    }
}

/// In a tile whose cells come in the order of the curve and have one width, the cells of a coarser
/// cell stand together: no two runs have the same coarser cell.
pub proof fn law_coarse_cells_stand_together(
    tile: BaseTile,
    power: u8,
    scale: nat,
    i: int,
    j: int,
    k: int,
)
    requires
        scale <= 16,
        tile.well_formed(),
        0 <= i <= j <= k < tile.point_ids@.len(),
        tile.point_ids@[i] <= tile.point_ids@[j] <= tile.point_ids@[k],
        tile.point_powers@[i] == power,
        tile.point_powers@[j] == power,
        tile.point_powers@[k] == power,
        group_keys(tile, scale)[i] == group_keys(tile, scale)[k],
    ensures
        group_keys(tile, scale)[j] == group_keys(tile, scale)[i],
{
    let (a, b, c) = (tile.point_ids@[i], tile.point_ids@[j], tile.point_ids@[k]);
    law_coarse_cells_are_runs(a, c, power, scale);
    law_coarse_cells_are_runs(a, b, power, scale);
    let count = pow2(2 * scale) as int;
    lemma_pow2_pos(2 * scale);
    lemma_div_is_ordered(a as int, b as int, count);
    lemma_div_is_ordered(b as int, c as int, count);
}

/// Every position is that of a cell of the grid.
proof fn lemma_grid_cell(id: u32)
    ensures
        in_square(16, grid_cell(id).0, grid_cell(id).1),
        curve(16, grid_cell(id).0, grid_cell(id).1) == id,
{
    lemma2_to64();
    assert(2 * 16nat == 32);
    law_positions_are_taken(16, id as int);
    let cell = choose|cell: (int, int)|
        #![trigger curve(16, cell.0, cell.1)]
        in_square(16, cell.0, cell.1) && curve(16, cell.0, cell.1) == id;
    assert(in_square(16, cell.0, cell.1) && curve(16, cell.0, cell.1) == id);
}

// ---------------------------------------------------------------------------
// What gathered cells hold
// ---------------------------------------------------------------------------

/// No two cells stand under one key.
pub open spec fn distinct_keys(cells: Seq<Entry>) -> bool {
    forall|i: int, j: int|
        0 <= i < j < cells.len() ==> (#[trigger] cells[i]).0 != (#[trigger] cells[j]).0
}

/// The place of the cell under a key.
pub open spec fn key_place(cells: Seq<Entry>, key: (u32, u32)) -> int {
    choose|i: int| 0 <= i < cells.len() && (#[trigger] cells[i]).0 == key
}

/// The value of a band in the cell under a key, if there is such a cell and it has one.
pub open spec fn value_under(cells: Seq<Entry>, key: (u32, u32), b: int) -> Option<int> {
    if has_key(cells, key) {
        cells[key_place(cells, key)].1.values[b]
    } else {
        None
    }
}

proof fn lemma_key_place(cells: Seq<Entry>, key: (u32, u32), i: int)
    requires
        distinct_keys(cells),
        0 <= i < cells.len(),
        cells[i].0 == key,
    ensures
        has_key(cells, key),
        key_place(cells, key) == i,
{
    assert(has_key(cells, key));
    let k = key_place(cells, key);
    assert(0 <= k < cells.len() && cells[k].0 == key);
    if k < i {
        assert(cells[k].0 != cells[i].0);
    } else if i < k {
        assert(cells[i].0 != cells[k].0);
    }
}

proof fn lemma_with_cell(
    cells: Seq<Entry>,
    key: (u32, u32),
    incoming: Cell,
    aggregation: Aggregation,
    band_count: int,
    other: (u32, u32),
    b: int,
)
    requires
        distinct_keys(cells),
        0 <= b < band_count <= 4,
    ensures
        distinct_keys(with_cell(cells, key, incoming, aggregation, band_count)),
        value_under(with_cell(cells, key, incoming, aggregation, band_count), other, b) == (
        if other == key {
            combined(aggregation, value_under(cells, key, b), incoming.values[b])
        } else {
            value_under(cells, other, b)
        }),
{
    let after = with_cell(cells, key, incoming, aggregation, band_count);
    assert forall|i: int| 0 <= i < cells.len() implies (#[trigger] after[i]).0 == cells[i].0 by {}
    assert forall|i: int, j: int| 0 <= i < j < after.len() implies (#[trigger] after[i]).0 != (
    #[trigger] after[j]).0 by {
        assert(after[i].0 == cells[i].0);
        if j < cells.len() {
            assert(after[j].0 == cells[j].0);
            assert(cells[i].0 != cells[j].0);
        }
    }
    if has_key(cells, other) {
        let i = key_place(cells, other);
        assert(0 <= i < cells.len() && cells[i].0 == other);
        assert(after[i].0 == other);
        lemma_key_place(after, other, i);
        if other != key {
            assert(after[i] == cells[i]);
        }
    } else if other == key {
        let i = cells.len() as int;
        assert(after[i] == (key, incoming));
        lemma_key_place(after, other, i);
    } else {
        assert(!has_key(after, other)) by {
            if has_key(after, other) {
                let i = key_place(after, other);
                assert(0 <= i < after.len() && after[i].0 == other);
                assert(i < cells.len());
                assert(cells[i].0 == other);
            }
        }
    }
}

impl<'a> Gathering<'a> {
    /// What the first `n` runs of a tile bring to a band of the cell under a key: the aggregate of
    /// the visible runs that lie in it.
    pub open spec fn brought_by_groups(
        self,
        tile: BaseTile,
        corners: Seq<Corners>,
        key: (u32, u32),
        b: int,
        n: nat,
    ) -> Option<int>
        decreases n,
    {
        if n == 0 {
            None
        } else {
            let before = self.brought_by_groups(tile, corners, key, b, (n - 1) as nat);
            let starts = groups_of(tile, self.scale as nat);
            let begin = starts[n - 1];
            let end = group_end(starts, tile.point_ids@.len() as int, n - 1);
            let group = group_keys(tile, self.scale as nat)[begin];
            if self.context.shows(corners[n - 1]) && key == (group.0 as u32, group.1 as u32) {
                combined(
                    self.aggregation,
                    before,
                    group_cell(tile, begin, end, 0, self.aggregation).values[b],
                )
            } else {
                before
            }
        }
    }

    /// What the first `n` tiles bring to a band of the cell under a key.
    pub open spec fn brought_by_tiles(
        self,
        tiles: Seq<(u64, BaseTile)>,
        corners: Seq<Vec<Corners>>,
        key: (u32, u32),
        b: int,
        n: nat,
    ) -> Option<int>
        decreases n,
    {
        if n == 0 {
            None
        } else {
            let tile = tiles[n - 1].1;
            combined(
                self.aggregation,
                self.brought_by_tiles(tiles, corners, key, b, (n - 1) as nat),
                self.brought_by_groups(
                    tile,
                    corners[n - 1]@,
                    key,
                    b,
                    groups_of(tile, self.scale as nat).len(),
                ),
            )
        }
    }

    proof fn lemma_groups_hold(
        self,
        cells: Seq<Entry>,
        tile: BaseTile,
        corners: Seq<Corners>,
        key: (u32, u32),
        b: int,
        n: nat,
    )
        requires
            self.well_formed(),
            distinct_keys(cells),
            0 <= b < self.band_count,
        ensures
            self.with_groups(cells, tile, corners, n) matches Some(after) ==> distinct_keys(after)
                && value_under(after, key, b) == combined(
                self.aggregation,
                value_under(cells, key, b),
                self.brought_by_groups(tile, corners, key, b, n),
            ),
        decreases n,
    {
        if n > 0 {
            self.lemma_groups_hold(cells, tile, corners, key, b, (n - 1) as nat);
            if let Some(before) = self.with_groups(cells, tile, corners, (n - 1) as nat) {
                let starts = groups_of(tile, self.scale as nat);
                let begin = starts[n - 1];
                let end = group_end(starts, tile.point_ids@.len() as int, n - 1);
                let group = group_keys(tile, self.scale as nat)[begin];
                let power = if group.2 >= self.scale {
                    group.2
                } else {
                    self.scale
                };
                let place = (group.0 as u32, group.1 as u32);
                let incoming = group_cell(tile, begin, end, power, self.aggregation);
                lemma_with_cell(
                    before,
                    place,
                    incoming,
                    self.aggregation,
                    self.band_count as int,
                    key,
                    b,
                );
                assert(incoming.values[b] == group_cell(
                    tile,
                    begin,
                    end,
                    0,
                    self.aggregation,
                ).values[b]);
                law_combining_associates(
                    self.aggregation,
                    value_under(cells, key, b),
                    self.brought_by_groups(tile, corners, key, b, (n - 1) as nat),
                    incoming.values[b],
                );
            }
        }
    }

    /// Every gathered cell holds, band by band, the aggregate of all visible cells that lie in it,
    /// whatever tile they come from; and no place has two cells.
    pub proof fn law_cells_hold_what_lies_in_them(
        self,
        tiles: Seq<(u64, BaseTile)>,
        corners: Seq<Vec<Corners>>,
        key: (u32, u32),
        b: int,
        n: nat,
    )
        requires
            self.well_formed(),
            0 <= b < self.band_count,
        ensures
            self.of_tiles(tiles, corners, n) matches Some(cells) ==> distinct_keys(cells)
                && value_under(cells, key, b) == self.brought_by_tiles(
                tiles,
                corners,
                key,
                b,
                n,
            ),
        decreases n,
    {
        if n > 0 {
            self.law_cells_hold_what_lies_in_them(tiles, corners, key, b, (n - 1) as nat);
            if let Some(before) = self.of_tiles(tiles, corners, (n - 1) as nat) {
                let tile = tiles[n - 1].1;
                self.lemma_groups_hold(
                    before,
                    tile,
                    corners[n - 1]@,
                    key,
                    b,
                    groups_of(tile, self.scale as nat).len(),
                );
            }
        }
    }
}

// ---------------------------------------------------------------------------
// What gathered cells hold of each band
// ---------------------------------------------------------------------------

/// The cell of the grid with a position lies in the square of the coarser grid that begins at a
/// column and row.
pub open spec fn lies_in(id: u32, key: (u32, u32), scale: nat) -> bool {
    &&& key.0 as int % pow2(scale) as int == 0
    &&& key.1 as int % pow2(scale) as int == 0
    &&& exists|x: int, y: int|
        {
            &&& in_square(16, x, y)
            &&& #[trigger] curve(16, x, y) == id
            &&& key.0 <= x < key.0 + pow2(scale)
            &&& key.1 <= y < key.1 + pow2(scale)
        }
}

/// Two cells of the grid lie in one square of the coarser grid.
pub open spec fn lie_together(a: u32, b: u32, scale: nat) -> bool {
    exists|key: (u32, u32)| #[trigger] lies_in(a, key, scale) && lies_in(b, key, scale)
}

/// In which run a cell of a tile stands: how often, up to it, neighbouring cells lie in different
/// squares of the coarser grid or have different widths.
pub open spec fn run_number(tile: BaseTile, scale: nat, i: nat) -> int
    decreases i,
{
    if i == 0 {
        0
    } else {
        let joined = lie_together(tile.point_ids@[i - 1], tile.point_ids@[i as int], scale)
            && tile.point_powers@[i - 1] == tile.point_powers@[i as int];
        run_number(tile, scale, (i - 1) as nat) + if joined {
            0int
        } else {
            1int
        }
    }
}

/// What a cell of a tile holds of a band.
pub open spec fn held(tile: BaseTile, b: int, i: int) -> Option<int> {
    if 0 <= b < tile.bands@.len() {
        plain(tile.bands@[b].values@[i])
    } else {
        None
    }
}

proof fn lemma_lies_in(id: u32, key: (u32, u32), scale: nat)
    ensures
        lies_in(id, key, scale) <==> key.0 == group_key(id, 0, scale).0 && key.1 == group_key(
            id,
            0,
            scale,
        ).1,
{
    lemma_grid_cell(id);
    let (x, y) = grid_cell(id);
    let width = pow2(scale) as int;
    lemma_pow2_pos(scale);
    lemma_mod_bound(x, width);
    lemma_mod_bound(y, width);
    lemma_fundamental_div_mod(x, width);
    lemma_fundamental_div_mod(y, width);
    if lies_in(id, key, scale) {
        let (u, v) = choose|u: int, v: int|
            {
                &&& in_square(16, u, v)
                &&& #[trigger] curve(16, u, v) == id
                &&& key.0 <= u < key.0 + pow2(scale)
                &&& key.1 <= v < key.1 + pow2(scale)
            };
        law_positions_differ(16, x, y, u, v);
        lemma_fundamental_div_mod(key.0 as int, width);
        lemma_fundamental_div_mod(key.1 as int, width);
        let (p, q) = (key.0 as int / width, key.1 as int / width);
        vstd::arithmetic::mul::lemma_mul_is_commutative(p, width);
        vstd::arithmetic::mul::lemma_mul_is_commutative(q, width);
        lemma_fundamental_div_mod_converse(x, width, p, x - key.0);
        lemma_fundamental_div_mod_converse(y, width, q, y - key.1);
    }
    if key.0 == group_key(id, 0, scale).0 && key.1 == group_key(id, 0, scale).1 {
        lemma_mod_multiples_basic(x / width, width);
        lemma_mod_multiples_basic(y / width, width);
        vstd::arithmetic::mul::lemma_mul_is_commutative(x / width, width);
        vstd::arithmetic::mul::lemma_mul_is_commutative(y / width, width);
        assert(curve(16, x, y) == id);
    }
}

/// The square of the coarser grid that a cell lies in begins at a column and row of the grid.
proof fn lemma_group_key(id: u32, scale: nat)
    ensures
        0 <= group_key(id, 0, scale).0 < 0x1_0000,
        0 <= group_key(id, 0, scale).1 < 0x1_0000,
{
    lemma_grid_cell(id);
    lemma2_to64();
    let (x, y) = grid_cell(id);
    let width = pow2(scale) as int;
    lemma_pow2_pos(scale);
    lemma_mod_bound(x, width);
    lemma_mod_bound(y, width);
    lemma_mod_decreases(x as nat, width as nat);
    lemma_mod_decreases(y as nat, width as nat);
}

proof fn lemma_lie_together(a: u32, b: u32, scale: nat)
    ensures
        lie_together(a, b, scale) <==> group_key(a, 0, scale) == group_key(b, 0, scale),
{
    if lie_together(a, b, scale) {
        let key = choose|key: (u32, u32)|
            #[trigger] lies_in(a, key, scale) && lies_in(b, key, scale);
        lemma_lies_in(a, key, scale);
        lemma_lies_in(b, key, scale);
    }
    if group_key(a, 0, scale) == group_key(b, 0, scale) {
        lemma_group_key(a, scale);
        let key = (group_key(a, 0, scale).0 as u32, group_key(a, 0, scale).1 as u32);
        lemma_lies_in(a, key, scale);
        lemma_lies_in(b, key, scale);
        assert(lies_in(a, key, scale) && lies_in(b, key, scale));
    }
}

proof fn lemma_run_number(tile: BaseTile, scale: nat, n: nat, g: int, i: int)
    requires
        n <= tile.point_ids@.len(),
        0 <= g < run_starts(group_keys(tile, scale), n).len(),
        run_starts(group_keys(tile, scale), n)[g] <= i < group_end(
            run_starts(group_keys(tile, scale), n),
            n as int,
            g,
        ),
    ensures
        0 <= i < n,
        run_number(tile, scale, i as nat) == g,
    decreases n,
{
    let keys = group_keys(tile, scale);
    lemma_run_starts(keys, n);
    let m = (n - 1) as nat;
    lemma_run_starts(keys, m);
    let before = run_starts(keys, m);
    if i < m {
        lemma_run_number(tile, scale, m, g, i);
    } else if n > 1 {
        lemma_run_number(tile, scale, m, before.len() - 1, i - 1);
        lemma_lie_together(tile.point_ids@[i - 1], tile.point_ids@[i], scale);
    }
}

/// How many values are remembered of a band in the cell under a key.
spec fn count_under(cells: Seq<Entry>, key: (u32, u32), b: int) -> int {
    if has_key(cells, key) {
        cells[key_place(cells, key)].1.counts[b]
    } else {
        0
    }
}

/// The power of the width of the cell under a key, if there is such a cell.
spec fn power_under(cells: Seq<Entry>, key: (u32, u32)) -> Option<int> {
    if has_key(cells, key) {
        Some(cells[key_place(cells, key)].1.power as int)
    } else {
        None
    }
}

proof fn lemma_with_cell_counts(
    cells: Seq<Entry>,
    key: (u32, u32),
    incoming: Cell,
    aggregation: Aggregation,
    band_count: int,
    other: (u32, u32),
    b: int,
)
    requires
        distinct_keys(cells),
        0 <= b < band_count <= 4,
    ensures
        aggregation == Aggregation::RoughAvg ==> count_under(
            with_cell(cells, key, incoming, aggregation, band_count),
            other,
            b,
        ) == count_under(cells, other, b) + if other == key {
            incoming.counts[b]
        } else {
            0
        },
        power_under(with_cell(cells, key, incoming, aggregation, band_count), other) == (
        if other == key {
            combined(Aggregation::Max, power_under(cells, key), Some(incoming.power as int))
        } else {
            power_under(cells, other)
        }),
{
    let after = with_cell(cells, key, incoming, aggregation, band_count);
    lemma_with_cell(cells, key, incoming, aggregation, band_count, other, b);
    if has_key(cells, other) {
        let i = key_place(cells, other);
        assert(0 <= i < cells.len() && cells[i].0 == other);
        assert(after[i].0 == other);
        lemma_key_place(after, other, i);
        if other != key {
            assert(after[i] == cells[i]);
        }
    } else if other == key {
        let i = cells.len() as int;
        assert(after[i] == (key, incoming));
        lemma_key_place(after, other, i);
    } else {
        assert(!has_key(after, other)) by {
            if has_key(after, other) {
                let i = key_place(after, other);
                assert(0 <= i < after.len() && after[i].0 == other);
                assert(i < cells.len());
                assert(cells[i].0 == other);
            }
        }
    }
}

/// The set of values comes to a value: where there are none to nothing, and otherwise to the
/// greatest, the least, or the value whose bits are those of all the values.
pub open spec fn comes_to(
    aggregation: Aggregation,
    values: Set<int>,
    value: Option<int>,
) -> bool {
    match value {
        None => values == Set::<int>::empty(),
        Some(value) => match aggregation {
            Aggregation::Max => values.contains(value) && forall|v: int|
                #[trigger] values.contains(v) ==> v <= value,
            Aggregation::Min => values.contains(value) && forall|v: int|
                #[trigger] values.contains(v) ==> value <= v,
            Aggregation::BitOr => values != Set::<int>::empty() && forall|mask: i32|
                #[trigger] shares_bits(value, mask) <==> some_shares_bits(values, mask),
            Aggregation::RoughAvg => values != Set::<int>::empty(),
        },
    }
}

/// The value has a bit of the mask.
pub open spec fn shares_bits(value: int, mask: i32) -> bool {
    (value as i32) & mask != 0
}

/// Some of the values has a bit of the mask.
pub open spec fn some_shares_bits(values: Set<int>, mask: i32) -> bool {
    exists|v: int| #[trigger] values.contains(v) && shares_bits(v, mask)
}

proof fn lemma_comes_together(
    aggregation: Aggregation,
    left: Set<int>,
    a: Option<int>,
    right: Set<int>,
    b: Option<int>,
)
    requires
        comes_to(aggregation, left, a),
        comes_to(aggregation, right, b),
    ensures
        comes_to(aggregation, left.union(right), combined(aggregation, a, b)),
{
    let all = left.union(right);
    match (a, b) {
        (None, _) => {
            assert(all =~= right);
        },
        (_, None) => {
            assert(all =~= left);
        },
        (Some(x), Some(y)) => {
            let v = choose|v: int| left.contains(v);
            assert(left.contains(v)) by {
                if forall|v: int| !left.contains(v) {
                    assert(left =~= Set::empty());
                }
            }
            assert(all.contains(v));
            if aggregation == Aggregation::BitOr {
                let value = combined(aggregation, a, b)->Some_0;
                assert forall|mask: i32| #[trigger] shares_bits(value, mask) <==> some_shares_bits(
                    all,
                    mask,
                ) by {
                    let (p, q) = (x as i32, y as i32);
                    assert((p | q) & mask != 0 <==> p & mask != 0 || q & mask != 0) by (bit_vector);
                    assert(shares_bits(value, mask) <==> shares_bits(x, mask) || shares_bits(
                        y,
                        mask,
                    ));
                    if some_shares_bits(left, mask) {
                        let v = choose|v: int| #[trigger] left.contains(v) && shares_bits(v, mask);
                        assert(all.contains(v) && shares_bits(v, mask));
                    }
                    if some_shares_bits(right, mask) {
                        let v = choose|v: int| #[trigger] right.contains(v) && shares_bits(v, mask);
                        assert(all.contains(v) && shares_bits(v, mask));
                    }
                    if some_shares_bits(all, mask) {
                        let v = choose|v: int| #[trigger] all.contains(v) && shares_bits(v, mask);
                        if left.contains(v) {
                            assert(left.contains(v) && shares_bits(v, mask));
                        } else {
                            assert(right.contains(v) && shares_bits(v, mask));
                        }
                    }
                }
            }
        },
    }
}

proof fn lemma_one_comes_to_itself(aggregation: Aggregation, value: Option<int>)
    ensures
        comes_to(aggregation, one_or_none(value), value),
{
    match value {
        None => {
            assert(one_or_none(value) =~= Set::empty());
        },
        Some(v) => {
            assert(one_or_none(value).contains(v));
            assert forall|mask: i32| #[trigger] shares_bits(v, mask) <==> some_shares_bits(
                one_or_none(value),
                mask,
            ) by {
                if shares_bits(v, mask) {
                    assert(one_or_none(value).contains(v) && shares_bits(v, mask));
                }
            }
        },
    }
}

/// The value by itself, if there is one.
spec fn one_or_none(value: Option<int>) -> Set<int> {
    Set::new(|v: int| value == Some(v))
}

impl<'a> Gathering<'a> {
    /// A cell of a tile is seen in a square of the coarser grid: it lies in it, and the run in
    /// which it stands is visible.
    pub open spec fn sees(
        self,
        tile: BaseTile,
        corners: Seq<Corners>,
        key: (u32, u32),
        i: int,
    ) -> bool {
        &&& 0 <= i < tile.point_ids@.len()
        &&& lies_in(tile.point_ids@[i], key, self.scale as nat)
        &&& self.context.shows(corners[run_number(tile, self.scale as nat, i as nat)])
    }

    /// Some cell of the tiles that is seen in a square holds the value in a band.
    pub open spec fn sees_value(
        self,
        tiles: Seq<(u64, BaseTile)>,
        corners: Seq<Vec<Corners>>,
        key: (u32, u32),
        b: int,
        value: int,
    ) -> bool {
        exists|t: int, i: int|
            {
                &&& 0 <= t < tiles.len()
                &&& #[trigger] self.sees(tiles[t].1, corners[t]@, key, i)
                &&& held(tiles[t].1, b, i) == Some(value)
            }
    }

    /// The values of a band in the cells of the tiles that are seen in a square.
    pub open spec fn values_seen(
        self,
        tiles: Seq<(u64, BaseTile)>,
        corners: Seq<Vec<Corners>>,
        key: (u32, u32),
        b: int,
    ) -> Set<int> {
        Set::new(|value: int| self.sees_value(tiles, corners, key, b, value))
    }

    /// The sum of the values of a band over the first `n` cells of a tile, as far as they are seen
    /// in a square, and how many they are.
    pub open spec fn sum_seen(
        self,
        tile: BaseTile,
        corners: Seq<Corners>,
        key: (u32, u32),
        b: int,
        n: nat,
    ) -> (int, int)
        decreases n,
    {
        if n == 0 {
            (0, 0)
        } else {
            let before = self.sum_seen(tile, corners, key, b, (n - 1) as nat);
            match held(tile, b, n - 1) {
                Some(value) if self.sees(tile, corners, key, n - 1) => (
                    before.0 + value,
                    before.1 + 1,
                ),
                _ => before,
            }
        }
    }

    /// The sum of the values of a band over all cells of the first `n` tiles that are seen in a
    /// square, and how many they are.
    pub open spec fn total_seen(
        self,
        tiles: Seq<(u64, BaseTile)>,
        corners: Seq<Vec<Corners>>,
        key: (u32, u32),
        b: int,
        n: nat,
    ) -> (int, int)
        decreases n,
    {
        if n == 0 {
            (0, 0)
        } else {
            let before = self.total_seen(tiles, corners, key, b, (n - 1) as nat);
            let tile = tiles[n - 1].1;
            let now = self.sum_seen(tile, corners[n - 1]@, key, b, tile.point_ids@.len());
            (before.0 + now.0, before.1 + now.1)
        }
    }

    /// What the first `n` cells of a tile bring to a band of a square.
    spec fn brought(
        self,
        tile: BaseTile,
        corners: Seq<Corners>,
        key: (u32, u32),
        b: int,
        n: nat,
    ) -> Option<int>
        decreases n,
    {
        if n == 0 {
            None
        } else {
            let before = self.brought(tile, corners, key, b, (n - 1) as nat);
            if self.sees(tile, corners, key, n - 1) {
                combined(self.aggregation, before, held(tile, b, n - 1))
            } else {
                before
            }
        }
    }

    /// The greatest power among the first `n` cells of a tile that are seen in a square.
    spec fn power_brought(
        self,
        tile: BaseTile,
        corners: Seq<Corners>,
        key: (u32, u32),
        n: nat,
    ) -> Option<int>
        decreases n,
    {
        if n == 0 {
            None
        } else {
            let before = self.power_brought(tile, corners, key, (n - 1) as nat);
            if self.sees(tile, corners, key, n - 1) {
                combined(Aggregation::Max, before, Some(self.power_of(tile, n - 1)))
            } else {
                before
            }
        }
    }

    /// The power of the width that a cell of a tile is shown with: at least that of the coarser
    /// grid.
    pub open spec fn power_of(self, tile: BaseTile, i: int) -> int {
        if tile.point_powers@[i] >= self.scale {
            tile.point_powers@[i] as int
        } else {
            self.scale as int
        }
    }

    proof fn lemma_stretch(
        self,
        tile: BaseTile,
        corners: Seq<Corners>,
        key: (u32, u32),
        b: int,
        begin: int,
        end: int,
        seen: bool,
        power: u8,
    )
        requires
            tile.well_formed(),
            0 <= begin <= end <= tile.point_ids@.len(),
            forall|i: int|
                begin <= i < end ==> #[trigger] self.sees(tile, corners, key, i) == seen
                    && tile.point_powers@[i] == power,
        ensures
            self.brought(tile, corners, key, b, end as nat) == if seen && 0 <= b < tile.bands@.len() {
                combined(
                    self.aggregation,
                    self.brought(tile, corners, key, b, begin as nat),
                    aggregated(self.aggregation, tile.bands@[b].values@.subrange(begin, end)),
                )
            } else {
                self.brought(tile, corners, key, b, begin as nat)
            },
            self.sum_seen(tile, corners, key, b, end as nat).1 == self.sum_seen(
                tile,
                corners,
                key,
                b,
                begin as nat,
            ).1 + if seen && 0 <= b < tile.bands@.len() {
                present(tile.bands@[b].values@.subrange(begin, end)) as int
            } else {
                0
            },
            self.power_brought(tile, corners, key, end as nat) == if seen && begin < end {
                combined(
                    Aggregation::Max,
                    self.power_brought(tile, corners, key, begin as nat),
                    Some(
                        if power >= self.scale {
                            power as int
                        } else {
                            self.scale as int
                        },
                    ),
                )
            } else {
                self.power_brought(tile, corners, key, begin as nat)
            },
        decreases end,
    {
        if begin < end {
            self.lemma_stretch(tile, corners, key, b, begin, end - 1, seen, power);
            assert(self.sees(tile, corners, key, end - 1) == seen);
            if 0 <= b < tile.bands@.len() {
                let values = tile.bands@[b].values@;
                let stretch = values.subrange(begin, end);
                assert(stretch.drop_last() =~= values.subrange(begin, end - 1));
                assert(stretch.last() == values[end - 1]);
                assert(held(tile, b, end - 1) == plain(values[end - 1]));
                law_combining_associates(
                    self.aggregation,
                    self.brought(tile, corners, key, b, begin as nat),
                    aggregated(self.aggregation, stretch.drop_last()),
                    plain(values[end - 1]),
                );
            }
        } else if 0 <= b < tile.bands@.len() {
            assert(tile.bands@[b].values@.subrange(begin, end) =~= Seq::empty());
        }
    }

    /// The place at which the runs from the `n`-th on begin.
    spec fn place_of(self, tile: BaseTile, n: int) -> int {
        let starts = groups_of(tile, self.scale as nat);
        if n < starts.len() {
            starts[n]
        } else {
            tile.point_ids@.len() as int
        }
    }

    proof fn lemma_groups_gather(
        self,
        cells: Seq<Entry>,
        tile: BaseTile,
        corners: Seq<Corners>,
        key: (u32, u32),
        b: int,
        n: nat,
    )
        requires
            self.well_formed(),
            tile.well_formed(),
            distinct_keys(cells),
            0 <= b < self.band_count,
            n <= groups_of(tile, self.scale as nat).len(),
        ensures
            0 <= self.place_of(tile, n as int) <= tile.point_ids@.len(),
            self.with_groups(cells, tile, corners, n) matches Some(after) ==> {
                let place = self.place_of(tile, n as int) as nat;
                &&& distinct_keys(after)
                &&& value_under(after, key, b) == combined(
                    self.aggregation,
                    value_under(cells, key, b),
                    self.brought(tile, corners, key, b, place),
                )
                &&& self.aggregation == Aggregation::RoughAvg ==> count_under(after, key, b)
                    == count_under(cells, key, b) + self.sum_seen(tile, corners, key, b, place).1
                &&& power_under(after, key) == combined(
                    Aggregation::Max,
                    power_under(cells, key),
                    self.power_brought(tile, corners, key, place),
                )
            },
        decreases n,
    {
        let scale = self.scale as nat;
        let keys = group_keys(tile, scale);
        let starts = groups_of(tile, scale);
        lemma_run_starts(keys, tile.point_ids@.len());
        if n > 0 {
            let g = n - 1;
            self.lemma_groups_gather(cells, tile, corners, key, b, g as nat);
            if let Some(before) = self.with_groups(cells, tile, corners, g as nat) {
                let begin = starts[g];
                let end = group_end(starts, tile.point_ids@.len() as int, g);
                let group = keys[begin];
                let power = if group.2 >= self.scale {
                    group.2
                } else {
                    self.scale
                };
                let place = (group.0 as u32, group.1 as u32);
                let incoming = group_cell(tile, begin, end, power, self.aggregation);
                let shown = self.context.shows(corners[g]);
                lemma_group_key(tile.point_ids@[begin], scale);
                assert forall|i: int| begin <= i < end implies #[trigger] self.sees(
                    tile,
                    corners,
                    key,
                    i,
                ) == (shown && key == place) && tile.point_powers@[i] == group.2 by {
                    law_groups_are_runs(tile, scale, g, i);
                    lemma_run_number(tile, scale, tile.point_ids@.len(), g, i);
                    lemma_lies_in(tile.point_ids@[i], key, scale);
                }
                self.lemma_stretch(
                    tile,
                    corners,
                    key,
                    b,
                    begin,
                    end,
                    shown && key == place,
                    group.2,
                );
                assert(begin < end);
                if shown {
                    lemma_with_cell(
                        before,
                        place,
                        incoming,
                        self.aggregation,
                        self.band_count as int,
                        key,
                        b,
                    );
                    lemma_with_cell_counts(
                        before,
                        place,
                        incoming,
                        self.aggregation,
                        self.band_count as int,
                        key,
                        b,
                    );
                    law_combining_associates(
                        self.aggregation,
                        value_under(cells, key, b),
                        self.brought(tile, corners, key, b, begin as nat),
                        incoming.values[b],
                    );
                }
            }
        }
    }

    /// What the first `n` tiles bring to a band of a square.
    spec fn brought_by_all(
        self,
        tiles: Seq<(u64, BaseTile)>,
        corners: Seq<Vec<Corners>>,
        key: (u32, u32),
        b: int,
        n: nat,
    ) -> Option<int>
        decreases n,
    {
        if n == 0 {
            None
        } else {
            let tile = tiles[n - 1].1;
            combined(
                self.aggregation,
                self.brought_by_all(tiles, corners, key, b, (n - 1) as nat),
                self.brought(tile, corners[n - 1]@, key, b, tile.point_ids@.len()),
            )
        }
    }

    /// The greatest power among the cells of the first `n` tiles that are seen in a square.
    spec fn power_of_all(
        self,
        tiles: Seq<(u64, BaseTile)>,
        corners: Seq<Vec<Corners>>,
        key: (u32, u32),
        n: nat,
    ) -> Option<int>
        decreases n,
    {
        if n == 0 {
            None
        } else {
            let tile = tiles[n - 1].1;
            combined(
                Aggregation::Max,
                self.power_of_all(tiles, corners, key, (n - 1) as nat),
                self.power_brought(tile, corners[n - 1]@, key, tile.point_ids@.len()),
            )
        }
    }

    proof fn lemma_tiles_gather(
        self,
        tiles: Seq<(u64, BaseTile)>,
        corners: Seq<Vec<Corners>>,
        key: (u32, u32),
        b: int,
        n: nat,
    )
        requires
            self.well_formed(),
            0 <= b < self.band_count,
            n <= tiles.len(),
            forall|t: int| 0 <= t < tiles.len() ==> (#[trigger] tiles[t]).1.well_formed(),
        ensures
            self.of_tiles(tiles, corners, n) matches Some(cells) ==> {
                &&& distinct_keys(cells)
                &&& value_under(cells, key, b) == self.brought_by_all(tiles, corners, key, b, n)
                &&& self.aggregation == Aggregation::RoughAvg ==> count_under(cells, key, b)
                    == self.total_seen(tiles, corners, key, b, n).1
                &&& power_under(cells, key) == self.power_of_all(tiles, corners, key, n)
            },
        decreases n,
    {
        if n > 0 {
            self.lemma_tiles_gather(tiles, corners, key, b, (n - 1) as nat);
            assert(tiles[n - 1].1.well_formed());
            if let Some(before) = self.of_tiles(tiles, corners, (n - 1) as nat) {
                let tile = tiles[n - 1].1;
                self.lemma_groups_gather(
                    before,
                    tile,
                    corners[n - 1]@,
                    key,
                    b,
                    groups_of(tile, self.scale as nat).len(),
                );
            }
        }
    }

    /// The values of a band in the first `n` cells of a tile, as far as they are seen in a square.
    spec fn values_in(
        self,
        tile: BaseTile,
        corners: Seq<Corners>,
        key: (u32, u32),
        b: int,
        n: nat,
    ) -> Set<int> {
        Set::new(
            |value: int|
                exists|i: int|
                    i < n && #[trigger] self.sees(tile, corners, key, i) && held(tile, b, i)
                        == Some(value),
        )
    }

    proof fn lemma_brought(
        self,
        tile: BaseTile,
        corners: Seq<Corners>,
        key: (u32, u32),
        b: int,
        n: nat,
    )
        ensures
            comes_to(
                self.aggregation,
                self.values_in(tile, corners, key, b, n),
                self.brought(tile, corners, key, b, n),
            ),
            self.aggregation == Aggregation::RoughAvg ==> {
                let (sum, count) = self.sum_seen(tile, corners, key, b, n);
                &&& count >= 0
                &&& count == 0 ==> sum == 0
                &&& self.brought(tile, corners, key, b, n) == if count == 0 {
                    None
                } else {
                    Some(sum)
                }
            },
        decreases n,
    {
        let now = self.values_in(tile, corners, key, b, n);
        if n == 0 {
            assert(now =~= Set::empty()) by {
                assert forall|v: int| !now.contains(v) by {}
            }
        } else {
            let m = (n - 1) as nat;
            self.lemma_brought(tile, corners, key, b, m);
            let before = self.values_in(tile, corners, key, b, m);
            let seen = self.sees(tile, corners, key, m as int);
            let value = held(tile, b, m as int);
            let last = one_or_none(
                if seen {
                    value
                } else {
                    None
                },
            );
            assert(now =~= before.union(last)) by {
                assert forall|v: int| now.contains(v) == before.union(last).contains(v) by {
                    if now.contains(v) {
                        let i = choose|i: int|
                            i < n && #[trigger] self.sees(tile, corners, key, i) && held(
                                tile,
                                b,
                                i,
                            ) == Some(v);
                        if i < m {
                            assert(self.sees(tile, corners, key, i));
                            assert(before.contains(v));
                        } else {
                            assert(last.contains(v));
                        }
                    }
                    if before.contains(v) {
                        let i = choose|i: int|
                            i < m && #[trigger] self.sees(tile, corners, key, i) && held(
                                tile,
                                b,
                                i,
                            ) == Some(v);
                        assert(i < n && self.sees(tile, corners, key, i));
                    }
                    if last.contains(v) {
                        assert(self.sees(tile, corners, key, m as int) && held(tile, b, m as int)
                            == Some(v));
                    }
                }
            }
            if seen {
                lemma_one_comes_to_itself(self.aggregation, value);
                lemma_comes_together(
                    self.aggregation,
                    before,
                    self.brought(tile, corners, key, b, m),
                    last,
                    value,
                );
            } else {
                lemma_one_comes_to_itself(self.aggregation, None);
                lemma_comes_together(
                    self.aggregation,
                    before,
                    self.brought(tile, corners, key, b, m),
                    last,
                    None,
                );
            }
        }
    }

    /// Some cell of the first `n` tiles that is seen in a square holds the value in a band.
    spec fn values_of(
        self,
        tiles: Seq<(u64, BaseTile)>,
        corners: Seq<Vec<Corners>>,
        key: (u32, u32),
        b: int,
        n: nat,
    ) -> Set<int> {
        Set::new(
            |value: int|
                exists|t: int, i: int|
                    {
                        &&& 0 <= t < n
                        &&& #[trigger] self.sees(tiles[t].1, corners[t]@, key, i)
                        &&& held(tiles[t].1, b, i) == Some(value)
                    },
        )
    }

    proof fn lemma_brought_by_all(
        self,
        tiles: Seq<(u64, BaseTile)>,
        corners: Seq<Vec<Corners>>,
        key: (u32, u32),
        b: int,
        n: nat,
    )
        ensures
            comes_to(
                self.aggregation,
                self.values_of(tiles, corners, key, b, n),
                self.brought_by_all(tiles, corners, key, b, n),
            ),
            self.aggregation == Aggregation::RoughAvg ==> {
                let (sum, count) = self.total_seen(tiles, corners, key, b, n);
                &&& count >= 0
                &&& count == 0 ==> sum == 0
                &&& self.brought_by_all(tiles, corners, key, b, n) == if count == 0 {
                    None
                } else {
                    Some(sum)
                }
            },
        decreases n,
    {
        let now = self.values_of(tiles, corners, key, b, n);
        if n == 0 {
            assert(now =~= Set::empty()) by {
                assert forall|v: int| !now.contains(v) by {}
            }
        } else {
            let m = (n - 1) as nat;
            self.lemma_brought_by_all(tiles, corners, key, b, m);
            let before = self.values_of(tiles, corners, key, b, m);
            let tile = tiles[n - 1].1;
            let count = tile.point_ids@.len();
            let places = corners[n - 1]@;
            self.lemma_brought(tile, places, key, b, count);
            let last = self.values_in(tile, places, key, b, count);
            assert(now =~= before.union(last)) by {
                assert forall|v: int| now.contains(v) == before.union(last).contains(v) by {
                    if now.contains(v) {
                        let (t, i) = choose|t: int, i: int|
                            {
                                &&& 0 <= t < n
                                &&& #[trigger] self.sees(tiles[t].1, corners[t]@, key, i)
                                &&& held(tiles[t].1, b, i) == Some(v)
                            };
                        if t < m {
                            assert(self.sees(tiles[t].1, corners[t]@, key, i));
                            assert(before.contains(v));
                        } else {
                            assert(self.sees(tile, places, key, i));
                            assert(last.contains(v));
                        }
                    }
                    if before.contains(v) {
                        let (t, i) = choose|t: int, i: int|
                            {
                                &&& 0 <= t < m
                                &&& #[trigger] self.sees(tiles[t].1, corners[t]@, key, i)
                                &&& held(tiles[t].1, b, i) == Some(v)
                            };
                        assert(t < n && self.sees(tiles[t].1, corners[t]@, key, i));
                    }
                    if last.contains(v) {
                        let i = choose|i: int|
                            i < count && #[trigger] self.sees(tile, places, key, i) && held(
                                tile,
                                b,
                                i,
                            ) == Some(v);
                        assert(self.sees(tiles[m as int].1, corners[m as int]@, key, i));
                    }
                }
            }
            lemma_comes_together(
                self.aggregation,
                before,
                self.brought_by_all(tiles, corners, key, b, m),
                last,
                self.brought(tile, places, key, b, count),
            );
        }
    }

    /// In every band a gathered cell holds what the values of that band come to in the cells seen
    /// in its square: the greatest of them, the least of them, or all of their bits; and nothing
    /// where none of them holds a value of the band. Values of other bands have no part in it.
    pub proof fn law_bands_are_gathered_apart(
        self,
        tiles: Seq<(u64, BaseTile)>,
        corners: Seq<Vec<Corners>>,
        cells: Seq<Entry>,
        e: int,
        b: int,
    )
        requires
            self.well_formed(),
            forall|t: int| 0 <= t < tiles.len() ==> (#[trigger] tiles[t]).1.well_formed(),
            self.of_tiles(tiles, corners, tiles.len()) == Some(cells),
            0 <= e < cells.len(),
            0 <= b < self.band_count,
        ensures
            comes_to(
                self.aggregation,
                self.values_seen(tiles, corners, cells[e].0, b),
                cells[e].1.values[b],
            ),
    {
        let key = cells[e].0;
        self.lemma_tiles_gather(tiles, corners, key, b, tiles.len());
        self.lemma_brought_by_all(tiles, corners, key, b, tiles.len());
        lemma_key_place(cells, key, e);
        assert(self.values_seen(tiles, corners, key, b) =~= self.values_of(
            tiles,
            corners,
            key,
            b,
            tiles.len(),
        ));
    }

    /// Where averages are to be shown, a gathered cell holds in every band the sum of the values of
    /// that band over the cells seen in its square, and how many there are; and nothing where there
    /// is none.
    pub proof fn law_sums_are_gathered_apart(
        self,
        tiles: Seq<(u64, BaseTile)>,
        corners: Seq<Vec<Corners>>,
        cells: Seq<Entry>,
        e: int,
        b: int,
    )
        requires
            self.well_formed(),
            self.aggregation == Aggregation::RoughAvg,
            forall|t: int| 0 <= t < tiles.len() ==> (#[trigger] tiles[t]).1.well_formed(),
            self.of_tiles(tiles, corners, tiles.len()) == Some(cells),
            0 <= e < cells.len(),
            0 <= b < self.band_count,
        ensures
            ({
                let (sum, count) = self.total_seen(tiles, corners, cells[e].0, b, tiles.len());
                &&& cells[e].1.counts[b] == count
                &&& cells[e].1.values[b] == if count == 0 {
                    None
                } else {
                    Some(sum)
                }
            }),
    {
        let key = cells[e].0;
        self.lemma_tiles_gather(tiles, corners, key, b, tiles.len());
        self.lemma_brought_by_all(tiles, corners, key, b, tiles.len());
        lemma_key_place(cells, key, e);
    }

    /// Some cell of the tiles is seen in a square.
    pub open spec fn sees_some(
        self,
        tiles: Seq<(u64, BaseTile)>,
        corners: Seq<Vec<Corners>>,
        key: (u32, u32),
    ) -> bool {
        exists|t: int, i: int|
            0 <= t < tiles.len() && #[trigger] self.sees(tiles[t].1, corners[t]@, key, i)
    }

    /// Some cell of the tiles that is seen in a square has the power of a width.
    pub open spec fn sees_power(
        self,
        tiles: Seq<(u64, BaseTile)>,
        corners: Seq<Vec<Corners>>,
        key: (u32, u32),
        power: int,
    ) -> bool {
        exists|t: int, i: int|
            {
                &&& 0 <= t < tiles.len()
                &&& #[trigger] self.sees(tiles[t].1, corners[t]@, key, i)
                &&& self.power_of(tiles[t].1, i) == power
            }
    }

    proof fn lemma_power_brought(
        self,
        tile: BaseTile,
        corners: Seq<Corners>,
        key: (u32, u32),
        n: nat,
    )
        ensures
            match self.power_brought(tile, corners, key, n) {
                None => forall|i: int| i < n ==> !#[trigger] self.sees(tile, corners, key, i),
                Some(most) => {
                    &&& forall|i: int|
                        i < n && #[trigger] self.sees(tile, corners, key, i) ==> self.power_of(
                            tile,
                            i,
                        ) <= most
                    &&& exists|i: int|
                        i < n && #[trigger] self.sees(tile, corners, key, i) && self.power_of(
                            tile,
                            i,
                        ) == most
                },
            },
        decreases n,
    {
        if n > 0 {
            let m = (n - 1) as nat;
            self.lemma_power_brought(tile, corners, key, m);
            if let Some(before) = self.power_brought(tile, corners, key, m) {
                let i = choose|i: int|
                    i < m && #[trigger] self.sees(tile, corners, key, i) && self.power_of(tile, i)
                        == before;
                assert(i < n && self.sees(tile, corners, key, i));
            }
        }
    }

    proof fn lemma_power_of_all(
        self,
        tiles: Seq<(u64, BaseTile)>,
        corners: Seq<Vec<Corners>>,
        key: (u32, u32),
        n: nat,
    )
        ensures
            match self.power_of_all(tiles, corners, key, n) {
                None => forall|t: int, i: int|
                    0 <= t < n ==> !#[trigger] self.sees(tiles[t].1, corners[t]@, key, i),
                Some(most) => {
                    &&& forall|t: int, i: int|
                        0 <= t < n && #[trigger] self.sees(tiles[t].1, corners[t]@, key, i)
                            ==> self.power_of(tiles[t].1, i) <= most
                    &&& exists|t: int, i: int|
                        0 <= t < n && #[trigger] self.sees(tiles[t].1, corners[t]@, key, i)
                            && self.power_of(tiles[t].1, i) == most
                },
            },
        decreases n,
    {
        if n > 0 {
            let m = n - 1;
            self.lemma_power_of_all(tiles, corners, key, m as nat);
            let tile = tiles[m].1;
            let places = corners[m]@;
            let count = tile.point_ids@.len();
            self.lemma_power_brought(tile, places, key, count);
            if let Some(before) = self.power_of_all(tiles, corners, key, m as nat) {
                let (t, i) = choose|t: int, i: int|
                    0 <= t < m && #[trigger] self.sees(tiles[t].1, corners[t]@, key, i)
                        && self.power_of(tiles[t].1, i) == before;
                assert(t < n && self.sees(tiles[t].1, corners[t]@, key, i));
            }
            if let Some(last) = self.power_brought(tile, places, key, count) {
                let i = choose|i: int|
                    i < count && #[trigger] self.sees(tile, places, key, i) && self.power_of(
                        tile,
                        i,
                    ) == last;
                assert(self.sees(tiles[m].1, corners[m]@, key, i));
            }
        }
    }

    /// A square has a gathered cell exactly where some cell is seen in it, and no square has two;
    /// the cell is as wide as the widest of them.
    pub proof fn law_squares_with_a_seen_cell_are_gathered(
        self,
        tiles: Seq<(u64, BaseTile)>,
        corners: Seq<Vec<Corners>>,
        cells: Seq<Entry>,
        key: (u32, u32),
    )
        requires
            self.well_formed(),
            self.band_count > 0,
            forall|t: int| 0 <= t < tiles.len() ==> (#[trigger] tiles[t]).1.well_formed(),
            self.of_tiles(tiles, corners, tiles.len()) == Some(cells),
        ensures
            distinct_keys(cells),
            has_key(cells, key) <==> self.sees_some(tiles, corners, key),
            forall|e: int|
                0 <= e < cells.len() && (#[trigger] cells[e]).0 == key ==> {
                    &&& self.sees_power(tiles, corners, key, cells[e].1.power as int)
                    &&& forall|power: int|
                        #[trigger] self.sees_power(tiles, corners, key, power) ==> power
                            <= cells[e].1.power
                },
    {
        self.lemma_tiles_gather(tiles, corners, key, 0, tiles.len());
        self.lemma_power_of_all(tiles, corners, key, tiles.len());
        assert forall|e: int| 0 <= e < cells.len() && (#[trigger] cells[e]).0 == key implies {
            &&& self.sees_power(tiles, corners, key, cells[e].1.power as int)
            &&& forall|power: int|
                #[trigger] self.sees_power(tiles, corners, key, power) ==> power
                    <= cells[e].1.power
        } by {
            lemma_key_place(cells, key, e);
        }
    }
}

// ---------------------------------------------------------------------------
// What a layer shows
// ---------------------------------------------------------------------------

/// The values of the active bands can be packed.
spec fn packed(cell: Cell, band_count: int) -> bool {
    forall|b: int| 0 <= b < band_count ==> packable(#[trigger] cell.values[b])
}

spec fn all_packed(cells: Seq<Entry>, band_count: int) -> bool {
    forall|i: int| 0 <= i < cells.len() ==> packed((#[trigger] cells[i]).1, band_count)
}

proof fn lemma_with_cell_packed(
    cells: Seq<Entry>,
    key: (u32, u32),
    incoming: Cell,
    aggregation: Aggregation,
    band_count: int,
)
    requires
        band_count <= 4,
        all_packed(cells, band_count),
        packed(incoming, band_count),
        takes_cell(cells, key, incoming, aggregation, band_count),
    ensures
        all_packed(with_cell(cells, key, incoming, aggregation, band_count), band_count),
{
    let after = with_cell(cells, key, incoming, aggregation, band_count);
    assert forall|i: int| 0 <= i < after.len() implies packed((#[trigger] after[i]).1, band_count) by {
        if i < cells.len() {
            assert(packed(cells[i].1, band_count));
            if has_key(cells, key) && cells[i].0 == key {
                let cell = merged(cells[i].1, incoming, aggregation, band_count);
                assert(after[i].1 == cell);
                assert forall|b: int| 0 <= b < band_count implies packable(
                    #[trigger] cell.values[b],
                ) by {
                    assert(packable(cells[i].1.values[b]) && packable(incoming.values[b]));
                    if aggregation != Aggregation::RoughAvg {
                        lemma_combined_packable(
                            aggregation,
                            cells[i].1.values[b],
                            incoming.values[b],
                        );
                    } else {
                        assert(merge_fits(cells[i].1, incoming, band_count));
                        assert(packable(
                            combined(
                                Aggregation::RoughAvg,
                                cells[i].1.values[b],
                                incoming.values[b],
                            ),
                        ));
                    }
                }
            }
        }
    }
}

impl<'a> Gathering<'a> {
    proof fn lemma_groups_packed(
        self,
        cells: Seq<Entry>,
        tile: BaseTile,
        corners: Seq<Corners>,
        n: nat,
    )
        requires
            self.well_formed(),
            all_packed(cells, self.band_count as int),
        ensures
            self.aggregation != Aggregation::RoughAvg ==> self.with_groups(
                cells,
                tile,
                corners,
                n,
            ) is Some,
            self.with_groups(cells, tile, corners, n) matches Some(after) ==> all_packed(
                after,
                self.band_count as int,
            ),
        decreases n,
    {
        if n > 0 {
            self.lemma_groups_packed(cells, tile, corners, (n - 1) as nat);
            if let Some(before) = self.with_groups(cells, tile, corners, (n - 1) as nat) {
                let starts = groups_of(tile, self.scale as nat);
                let begin = starts[n - 1];
                let end = group_end(starts, tile.point_ids@.len() as int, n - 1);
                let key = group_keys(tile, self.scale as nat)[begin];
                let power = if key.2 >= self.scale {
                    key.2
                } else {
                    self.scale
                };
                let place = (key.0 as u32, key.1 as u32);
                let incoming = group_cell(tile, begin, end, power, self.aggregation);
                if group_fits(tile, begin, end, self.aggregation) && takes_cell(
                    before,
                    place,
                    incoming,
                    self.aggregation,
                    self.band_count as int,
                ) {
                    assert forall|b: int| 0 <= b < self.band_count implies packable(
                        #[trigger] incoming.values[b],
                    ) by {
                        if b < tile.bands@.len() {
                            let values = tile.bands@[b].values@.subrange(begin, end);
                            assert(aggregate_fits(self.aggregation, values));
                            if self.aggregation != Aggregation::RoughAvg {
                                lemma_aggregate_packable(self.aggregation, values);
                            }
                        }
                    }
                    lemma_with_cell_packed(
                        before,
                        place,
                        incoming,
                        self.aggregation,
                        self.band_count as int,
                    );
                }
            }
        }
    }

    proof fn lemma_tiles_packed(
        self,
        tiles: Seq<(u64, BaseTile)>,
        corners: Seq<Vec<Corners>>,
        n: nat,
    )
        requires
            self.well_formed(),
        ensures
            self.aggregation != Aggregation::RoughAvg ==> self.of_tiles(tiles, corners, n) is Some,
            self.of_tiles(tiles, corners, n) matches Some(cells) ==> all_packed(
                cells,
                self.band_count as int,
            ),
        decreases n,
    {
        if n > 0 {
            self.lemma_tiles_packed(tiles, corners, (n - 1) as nat);
            if let Some(before) = self.of_tiles(tiles, corners, (n - 1) as nat) {
                self.lemma_groups_packed(
                    before,
                    tiles[n - 1].1,
                    corners[n - 1]@,
                    groups_of(tiles[n - 1].1, self.scale as nat).len(),
                );
            }
        }
    }
}

/// How the cells of a product are gathered for a tile.
pub open spec fn gathering_for<'a>(
    context: &'a TileContext,
    product: &'a PreparedProduct,
    maximum_detail_zoom: u8,
) -> Gathering<'a> {
    Gathering {
        context,
        scale: coarseness(maximum_detail_zoom, context.zxy.0),
        aggregation: product.spec.aggregation,
        band_count: product.spec.band_specs.len(),
    }
}

/// What becomes of the gathered cells of a product.
pub open spec fn finish_for<'a>(product: &'a PreparedProduct) -> Finish<'a> {
    Finish {
        aggregation: product.spec.aggregation,
        quantize: &product.spec.quantize,
        omit: &product.spec.omit,
        band_count: product.spec.band_specs.len(),
    }
}

/// The values of a band in the cells of a product that are seen in a square come to a value: the
/// greatest, the least, all bits, or the sum of as many as are counted.
pub open spec fn is_seen(
    context: TileContext,
    product: PreparedProduct,
    maximum_detail_zoom: u8,
    corners: Seq<Vec<Corners>>,
    key: (u32, u32),
    b: int,
    value: Option<int>,
    count: int,
) -> bool {
    let gathering = gathering_for(&context, &product, maximum_detail_zoom);
    let tiles = tiles_under(product, context.zxy);
    &&& comes_to(
        product.spec.aggregation,
        gathering.values_seen(tiles, corners, key, b),
        value,
    )
    &&& product.spec.aggregation == Aggregation::RoughAvg ==> {
        let (sum, number) = gathering.total_seen(tiles, corners, key, b, tiles.len());
        &&& count == number
        &&& value == if number == 0 {
            None
        } else {
            Some(sum)
        }
    }
}

/// The cells under a product's tile are well formed.
proof fn lemma_tiles_under(product: PreparedProduct, zxy: Zxy)
    requires
        is_showable(product),
    ensures
        forall|t: int|
            0 <= t < tiles_under(product, zxy).len() ==> (#[trigger] tiles_under(
                product,
                zxy,
            )[t]).1.well_formed(),
{
    let under = tiles_under(product, zxy);
    let range = chunk_range(product.spec.base_z, zxy);
    assert forall|i: int| 0 <= i < under.len() implies (#[trigger] under[i]).1.well_formed() by {
        lemma_kept_are_some(
            product.chunks@,
            |chunk: (u64, BaseTile)| range.0 <= chunk.0 < range.1,
            i,
        );
    }
}

/// A band of a cell that a layer shows carries what the values of that band, in the cells seen in
/// its square, come to: their mean where they are averaged, its class where the band is quantized,
/// and nothing where that is left out.
pub proof fn law_layers_show_what_is_seen(
    context: TileContext,
    product: PreparedProduct,
    maximum_detail_zoom: u8,
    corners: Seq<Vec<Corners>>,
    shown: Seq<Entry>,
    i: int,
    b: int,
)
    requires
        is_showable(product),
        coarseness(maximum_detail_zoom, context.zxy.0) <= 31,
        shown_cells(context, product, maximum_detail_zoom, corners) == Some(shown),
        0 <= i < shown.len(),
        0 <= b < product.spec.band_specs@.len(),
    ensures
        exists|value: Option<int>, count: int|
            {
                &&& #[trigger] is_seen(
                    context,
                    product,
                    maximum_detail_zoom,
                    corners,
                    shown[i].0,
                    b,
                    value,
                    count,
                )
                &&& is_shown_as(finish_for(&product), b, value, count, shown[i].1.values[b])
            },
{
    let gathering = gathering_for(&context, &product, maximum_detail_zoom);
    let finish = finish_for(&product);
    let tiles = tiles_under(product, context.zxy);
    lemma_tiles_under(product, context.zxy);
    let cells = gathering.of_tiles(tiles, corners, tiles.len())->Some_0;
    assert(shown == finish.cells(cells));
    gathering.lemma_tiles_packed(tiles, corners, tiles.len());
    if product.spec.aggregation == Aggregation::RoughAvg {
        gathering.lemma_tiles_well_counted(tiles, corners, tiles.len());
    }
    assert forall|k: int| 0 <= k < cells.len() implies is_gathered(
        finish,
        (#[trigger] cells[k]).1,
    ) by {
        assert(packed(cells[k].1, finish.band_count as int));
    }
    law_shown_cells_were_gathered(finish, cells, i);
    let k = choose|k: int|
        0 <= k < cells.len() && shows_cell(finish, #[trigger] cells[k], finish.cells(cells)[i]);
    gathering.law_bands_are_gathered_apart(tiles, corners, cells, k, b);
    if product.spec.aggregation == Aggregation::RoughAvg {
        gathering.law_sums_are_gathered_apart(tiles, corners, cells, k, b);
    }
    let (value, count) = (cells[k].1.values[b], cells[k].1.counts[b]);
    assert(is_shown_as(finish, b, value, count, shown[i].1.values[b]));
    assert(is_seen(
        context,
        product,
        maximum_detail_zoom,
        corners,
        shown[i].0,
        b,
        value,
        count,
    ));
}

/// Only sums can leave 32 bits: a layer whose values are not averaged always has its cells. And
/// the cells of a layer stand apart, each in a square in which some cell is seen; where nothing is
/// left out, every such square has its cell.
pub proof fn law_layers_show_the_seen_squares(
    context: TileContext,
    product: PreparedProduct,
    maximum_detail_zoom: u8,
    corners: Seq<Vec<Corners>>,
)
    requires
        is_showable(product),
        product.spec.band_specs@.len() > 0,
        coarseness(maximum_detail_zoom, context.zxy.0) <= 31,
    ensures
        product.spec.aggregation != Aggregation::RoughAvg ==> shown_cells(
            context,
            product,
            maximum_detail_zoom,
            corners,
        ) is Some,
        shown_cells(context, product, maximum_detail_zoom, corners) matches Some(shown) ==> {
            let gathering = gathering_for(&context, &product, maximum_detail_zoom);
            let tiles = tiles_under(product, context.zxy);
            &&& distinct_keys(shown)
            &&& forall|i: int|
                0 <= i < shown.len() ==> gathering.sees_some(
                    tiles,
                    corners,
                    (#[trigger] shown[i]).0,
                )
            &&& !finish_for(&product).omits_something() ==> forall|key: (u32, u32)|
                #[trigger] gathering.sees_some(tiles, corners, key) ==> has_key(shown, key)
        },
{
    let gathering = gathering_for(&context, &product, maximum_detail_zoom);
    let finish = finish_for(&product);
    let tiles = tiles_under(product, context.zxy);
    lemma_tiles_under(product, context.zxy);
    gathering.lemma_tiles_packed(tiles, corners, tiles.len());
    if let Some(shown) = shown_cells(context, product, maximum_detail_zoom, corners) {
        let cells = gathering.of_tiles(tiles, corners, tiles.len())->Some_0;
        assert(shown == finish.cells(cells));
        if product.spec.aggregation == Aggregation::RoughAvg {
            gathering.lemma_tiles_well_counted(tiles, corners, tiles.len());
        }
        assert forall|k: int| 0 <= k < cells.len() implies is_gathered(
            finish,
            (#[trigger] cells[k]).1,
        ) by {
            assert(packed(cells[k].1, finish.band_count as int));
        }
        gathering.law_squares_with_a_seen_cell_are_gathered(tiles, corners, cells, (0, 0));
        assert forall|i: int, j: int| 0 <= i < j < shown.len() implies (#[trigger] shown[i]).0 != (
        #[trigger] shown[j]).0 by {
            law_shown_cells_stand_apart(finish, cells, i, j);
        }
        assert forall|i: int| 0 <= i < shown.len() implies gathering.sees_some(
            tiles,
            corners,
            (#[trigger] shown[i]).0,
        ) by {
            law_shown_cells_were_gathered(finish, cells, i);
            let k = choose|k: int|
                0 <= k < cells.len() && shows_cell(
                    finish,
                    #[trigger] cells[k],
                    finish.cells(cells)[i],
                );
            gathering.law_squares_with_a_seen_cell_are_gathered(
                tiles,
                corners,
                cells,
                shown[i].0,
            );
            assert(cells[k].0 == shown[i].0);
        }
        if !finish.omits_something() {
            assert forall|key: (u32, u32)| #[trigger]
                gathering.sees_some(tiles, corners, key) implies has_key(shown, key) by {
                gathering.law_squares_with_a_seen_cell_are_gathered(tiles, corners, cells, key);
                let k = choose|k: int| 0 <= k < cells.len() && (#[trigger] cells[k]).0 == key;
                law_gathered_cells_are_shown(finish, cells, k);
                let i = choose|i: int|
                    0 <= i < finish.cells(cells).len() && shows_cell(
                        finish,
                        cells[k],
                        #[trigger] finish.cells(cells)[i],
                    );
                assert(shown[i].0 == key);
            }
        }
    }
}

/// A tile of a product is taken up for a tile exactly where the two overlap.
pub proof fn law_overlapping_tiles_are_taken_up(
    product: PreparedProduct,
    zxy: Zxy,
    i: int,
    x: int,
    y: int,
)
    requires
        product.spec.base_z <= 31,
        is_tile(zxy),
        0 <= i < product.chunks@.len(),
        in_square(product.spec.base_z as nat, x, y),
        product.chunks@[i].0 == curve(product.spec.base_z as nat, x, y),
    ensures
        overlaps(product.spec.base_z, x, y, zxy) <==> exists|k: int|
            0 <= k < tiles_under(product, zxy).len() && (#[trigger] tiles_under(product, zxy)[k])
                == product.chunks@[i],
{
    let range = chunk_range(product.spec.base_z, zxy);
    law_range_holds_what_overlaps(product.spec.base_z, x, y, zxy);
    law_ranges_find_their_tiles(product, range.0, range.1, i, i);
    let found = product.chunks_between(range.0, range.1);
    assert(found == tiles_under(product, zxy));
    if overlaps(product.spec.base_z, x, y, zxy) {
        let k = choose|k: int|
            0 <= k < found.len() && #[trigger] product.chunks_between(range.0, range.1)[k]
                == product.chunks@[i];
        assert(tiles_under(product, zxy)[k] == product.chunks@[i]);
    }
    if exists|k: int|
        0 <= k < tiles_under(product, zxy).len() && (#[trigger] tiles_under(product, zxy)[k])
            == product.chunks@[i] {
        let k = choose|k: int|
            0 <= k < tiles_under(product, zxy).len() && (#[trigger] tiles_under(product, zxy)[k])
                == product.chunks@[i];
        law_ranges_find_their_tiles(product, range.0, range.1, k, k);
    }
}

/// At the zoom at which a cell is as wide as a pixel, and at every higher one, cells are shown one
/// by one; each zoom below doubles the width of the squares in which they come together.
pub proof fn law_squares_double_with_each_zoom(maximum_detail_zoom: u8, z: u8)
    ensures
        z >= maximum_detail_zoom ==> pow2(coarseness(maximum_detail_zoom, z) as nat) == 1,
        z < maximum_detail_zoom ==> pow2(coarseness(maximum_detail_zoom, z) as nat) == 2 * pow2(
            coarseness(maximum_detail_zoom, (z + 1) as u8) as nat,
        ),
{
    lemma2_to64();
    if z < maximum_detail_zoom {
        lemma_pow2_unfold(coarseness(maximum_detail_zoom, z) as nat);
    }
}

// ---------------------------------------------------------------------------
// When sums fit
// ---------------------------------------------------------------------------

/// The sum of the sizes of some values.
pub open spec fn weight(values: Seq<CompactOptI32>) -> int
    decreases values.len(),
{
    if values.len() == 0 {
        0
    } else {
        weight(values.drop_last()) + match plain(values.last()) {
            Some(value) => if value >= 0 {
                value
            } else {
                -value
            },
            None => 0,
        }
    }
}

/// The sum of the sizes of the values of a band in a tile.
pub open spec fn tile_weight(tile: BaseTile, b: int) -> int {
    if 0 <= b < tile.bands@.len() {
        weight(tile.bands@[b].values@)
    } else {
        0
    }
}

/// The sum of the sizes of the values of a band in the first `n` tiles.
pub open spec fn total_weight(tiles: Seq<(u64, BaseTile)>, b: int, n: nat) -> int
    decreases n,
{
    if n == 0 {
        0
    } else {
        total_weight(tiles, b, (n - 1) as nat) + tile_weight(tiles[n - 1].1, b)
    }
}

/// The number of cells in the first `n` tiles.
pub open spec fn total_cells(tiles: Seq<(u64, BaseTile)>, n: nat) -> int
    decreases n,
{
    if n == 0 {
        0
    } else {
        total_cells(tiles, (n - 1) as nat) + tiles[n - 1].1.point_ids@.len()
    }
}

proof fn lemma_weight_parts(left: Seq<CompactOptI32>, right: Seq<CompactOptI32>)
    ensures
        weight(left + right) == weight(left) + weight(right),
        weight(right) >= 0,
    decreases right.len(),
{
    if right.len() == 0 {
        assert(left + right =~= left);
    } else {
        lemma_weight_parts(left, right.drop_last());
        assert((left + right).drop_last() =~= left + right.drop_last());
    }
}

proof fn lemma_weight_of_part(values: Seq<CompactOptI32>, begin: int, end: int)
    requires
        0 <= begin <= end <= values.len(),
    ensures
        weight(values.take(end)) == weight(values.take(begin)) + weight(values.subrange(begin, end)),
        0 <= weight(values.subrange(begin, end)),
        0 <= weight(values.take(begin)),
        weight(values.take(end)) <= weight(values),
{
    assert(values.take(end) =~= values.take(begin) + values.subrange(begin, end));
    lemma_weight_parts(values.take(begin), values.subrange(begin, end));
    lemma_weight_parts(Seq::empty(), values.take(begin));
    assert(values =~= values.take(end) + values.skip(end));
    lemma_weight_parts(values.take(end), values.skip(end));
}

proof fn lemma_sum_within_weight(values: Seq<CompactOptI32>)
    ensures
        weight(values) >= 0,
        aggregated(Aggregation::RoughAvg, values) matches Some(sum) ==> -weight(values) <= sum
            <= weight(values),
    decreases values.len(),
{
    if values.len() > 0 {
        lemma_sum_within_weight(values.drop_last());
    }
}

proof fn lemma_sum_fits(values: Seq<CompactOptI32>)
    requires
        weight(values) <= i32::MAX,
        values.len() <= i32::MAX,
    ensures
        aggregate_fits(Aggregation::RoughAvg, values),
{
    lemma_sum_within_weight(values);
    assert forall|n: int| 0 <= n <= values.len() implies narrow(
        aggregated(Aggregation::RoughAvg, #[trigger] values.take(n)),
    ) by {
        lemma_weight_of_part(values, n, n);
        lemma_sum_within_weight(values.take(n));
    }
}

/// The sums of a cell are no greater in size than the weights, and its counts no greater than a
/// number.
spec fn is_light(cell: Cell, band_count: int, weights: Seq<int>, count: int) -> bool {
    forall|b: int|
        0 <= b < band_count ==> {
            &&& (#[trigger] cell.values[b]) matches Some(sum) ==> -weights[b] <= sum <= weights[b]
            &&& 0 <= cell.counts[b] <= count
        }
}

spec fn are_light(cells: Seq<Entry>, band_count: int, weights: Seq<int>, count: int) -> bool {
    forall|i: int|
        0 <= i < cells.len() ==> is_light((#[trigger] cells[i]).1, band_count, weights, count)
}

proof fn lemma_light_cells_merge(
    cells: Seq<Entry>,
    key: (u32, u32),
    incoming: Cell,
    band_count: int,
    weights: Seq<int>,
    count: int,
    more: Seq<int>,
    added: int,
)
    requires
        0 <= band_count <= 4,
        weights.len() == 4,
        more.len() == 4,
        are_light(cells, band_count, weights, count),
        is_light(incoming, band_count, more, added),
        forall|b: int|
            0 <= b < band_count ==> 0 <= (#[trigger] weights[b]) && 0 <= more[b] && weights[b]
                + more[b] <= i32::MAX,
        0 <= count && 0 <= added && count + added <= i32::MAX,
    ensures
        takes_cell(cells, key, incoming, Aggregation::RoughAvg, band_count),
        are_light(
            with_cell(cells, key, incoming, Aggregation::RoughAvg, band_count),
            band_count,
            Seq::new(4, |b: int| weights[b] + more[b]),
            count + added,
        ),
{
    let total = Seq::new(4, |b: int| weights[b] + more[b]);
    assert forall|i: int| 0 <= i < cells.len() && (#[trigger] cells[i]).0 == key implies merge_fits(
        cells[i].1,
        incoming,
        band_count,
    ) by {
        assert(is_light(cells[i].1, band_count, weights, count));
        assert forall|b: int| 0 <= b < band_count implies packable(
            #[trigger] combined(
                Aggregation::RoughAvg,
                cells[i].1.values[b],
                incoming.values[b],
            ),
        ) && i32::MIN <= cells[i].1.counts[b] + incoming.counts[b] <= i32::MAX by {
            assert(weights[b] + more[b] <= i32::MAX);
        }
    }
    let after = with_cell(cells, key, incoming, Aggregation::RoughAvg, band_count);
    assert forall|i: int| 0 <= i < after.len() implies is_light(
        (#[trigger] after[i]).1,
        band_count,
        total,
        count + added,
    ) by {
        if i < cells.len() {
            assert(is_light(cells[i].1, band_count, weights, count));
        }
        assert forall|b: int| 0 <= b < band_count implies {
            &&& (#[trigger] after[i].1.values[b]) matches Some(sum) ==> -total[b] <= sum <= total[b]
            &&& 0 <= after[i].1.counts[b] <= count + added
        } by {
            assert(0 <= weights[b] && 0 <= more[b]);
            assert(incoming.values[b] matches Some(sum) ==> -more[b] <= sum <= more[b]);
            if i < cells.len() {
                assert(cells[i].1.values[b] matches Some(sum) ==> -weights[b] <= sum <= weights[b]);
            }
        }
    }
}

impl<'a> Gathering<'a> {
    proof fn lemma_light_groups(
        self,
        cells: Seq<Entry>,
        tile: BaseTile,
        corners: Seq<Corners>,
        weights: Seq<int>,
        count: int,
        n: nat,
    )
        requires
            self.well_formed(),
            self.aggregation == Aggregation::RoughAvg,
            tile.well_formed(),
            weights.len() == 4,
            are_light(cells, self.band_count as int, weights, count),
            forall|b: int|
                0 <= b < 4 ==> 0 <= (#[trigger] weights[b]) && weights[b] + tile_weight(tile, b)
                    <= i32::MAX,
            0 <= count,
            count + tile.point_ids@.len() <= i32::MAX,
            n <= groups_of(tile, self.scale as nat).len(),
        ensures
            0 <= self.place_of(tile, n as int) <= tile.point_ids@.len(),
            self.with_groups(cells, tile, corners, n) matches Some(after) && are_light(
                after,
                self.band_count as int,
                self.weights_at(tile, weights, self.place_of(tile, n as int)),
                count + self.place_of(tile, n as int),
            ),
        decreases n,
    {
        let scale = self.scale as nat;
        let keys = group_keys(tile, scale);
        let starts = groups_of(tile, scale);
        let len = tile.point_ids@.len();
        lemma_run_starts(keys, len);
        let bands = self.band_count as int;
        if n == 0 {
            let start = self.weights_at(tile, weights, self.place_of(tile, 0));
            assert forall|b: int| 0 <= b < 4 implies #[trigger] start[b] == weights[b] by {
                if b < tile.bands@.len() {
                    assert(tile.bands@[b].values@.len() == len);
                    assert(tile.bands@[b].values@.take(0) =~= Seq::empty());
                }
            }
            assert(start =~= weights);
        } else {
            let g = n - 1;
            self.lemma_light_groups(cells, tile, corners, weights, count, g as nat);
            let before = self.with_groups(cells, tile, corners, g as nat)->Some_0;
            let begin = starts[g];
            let end = group_end(starts, len as int, g);
            let group = keys[begin];
            let power = if group.2 >= self.scale {
                group.2
            } else {
                self.scale
            };
            let place = (group.0 as u32, group.1 as u32);
            let incoming = group_cell(tile, begin, end, power, self.aggregation);
            let held_weights = self.weights_at(tile, weights, begin);
            let more = Seq::new(
                4,
                |b: int|
                    if b < tile.bands@.len() {
                        weight(tile.bands@[b].values@.subrange(begin, end))
                    } else {
                        0
                    },
            );
            let total = self.weights_at(tile, weights, end);
            assert forall|b: int| 0 <= b < 4 implies 0 <= (#[trigger] held_weights[b]) && 0
                <= more[b] && total[b] == held_weights[b] + more[b] && total[b] <= i32::MAX by {
                assert(0 <= weights[b] && weights[b] + tile_weight(tile, b) <= i32::MAX);
                if b < tile.bands@.len() {
                    assert(tile.bands@[b].values@.len() == len);
                    lemma_weight_of_part(tile.bands@[b].values@, begin, end);
                }
            }
            assert(group_fits(tile, begin, end, self.aggregation)) by {
                assert forall|b: int| 0 <= b < tile.bands@.len() implies aggregate_fits(
                    self.aggregation,
                    (#[trigger] tile.bands@[b]).values@.subrange(begin, end),
                ) by {
                    assert(tile.bands@[b].values@.len() == len);
                    assert(0 <= held_weights[b] && total[b] <= i32::MAX);
                    lemma_sum_fits(tile.bands@[b].values@.subrange(begin, end));
                }
            }
            assert(is_light(incoming, bands, more, end - begin)) by {
                assert forall|b: int| 0 <= b < bands implies {
                    &&& (#[trigger] incoming.values[b]) matches Some(sum) ==> -more[b] <= sum
                        <= more[b]
                    &&& 0 <= incoming.counts[b] <= end - begin
                } by {
                    if b < tile.bands@.len() {
                        assert(tile.bands@[b].values@.len() == len);
                        let part = tile.bands@[b].values@.subrange(begin, end);
                        lemma_sum_within_weight(part);
                        lemma_present(part);
                    }
                }
            }
            assert forall|b: int| 0 <= b < bands implies 0 <= (#[trigger] held_weights[b]) && 0
                <= more[b] && held_weights[b] + more[b] <= i32::MAX by {
                assert(held_weights[b] + more[b] == total[b]);
            }
            lemma_light_cells_merge(
                before,
                place,
                incoming,
                bands,
                held_weights,
                count + begin,
                more,
                end - begin,
            );
            assert(Seq::new(4, |b: int| held_weights[b] + more[b]) =~= total) by {
                assert forall|b: int| 0 <= b < 4 implies held_weights[b] + more[b]
                    == #[trigger] total[b] by {
                    assert(0 <= held_weights[b]);
                }
            }
            if !self.context.shows(corners[g]) {
                assert forall|i: int| 0 <= i < before.len() implies is_light(
                    (#[trigger] before[i]).1,
                    bands,
                    total,
                    count + end,
                ) by {
                    assert(is_light(before[i].1, bands, held_weights, count + begin));
                    assert forall|b: int| 0 <= b < bands implies {
                        &&& (#[trigger] before[i].1.values[b]) matches Some(sum) ==> -total[b]
                            <= sum <= total[b]
                        &&& 0 <= before[i].1.counts[b] <= count + end
                    } by {
                        assert(0 <= held_weights[b]);
                        assert(total[b] == held_weights[b] + more[b] && 0 <= more[b]);
                    }
                }
            }
        }
    }

    /// The weights with those of the first cells of a tile.
    spec fn weights_at(self, tile: BaseTile, weights: Seq<int>, place: int) -> Seq<int> {
        Seq::new(
            4,
            |b: int|
                weights[b] + if b < tile.bands@.len() {
                    weight(tile.bands@[b].values@.take(place))
                } else {
                    0
                },
        )
    }

    proof fn lemma_light_tiles(
        self,
        tiles: Seq<(u64, BaseTile)>,
        corners: Seq<Vec<Corners>>,
        n: nat,
    )
        requires
            self.well_formed(),
            self.aggregation == Aggregation::RoughAvg,
            n <= tiles.len(),
            forall|t: int| 0 <= t < tiles.len() ==> (#[trigger] tiles[t]).1.well_formed(),
            forall|b: int| 0 <= b < 4 ==> #[trigger] total_weight(tiles, b, n) <= i32::MAX,
            total_cells(tiles, n) <= i32::MAX,
        ensures
            total_cells(tiles, n) >= 0,
            forall|b: int| 0 <= b < 4 ==> #[trigger] total_weight(tiles, b, n) >= 0,
            self.of_tiles(tiles, corners, n) matches Some(cells) && are_light(
                cells,
                self.band_count as int,
                Seq::new(4, |b: int| total_weight(tiles, b, n)),
                total_cells(tiles, n),
            ),
        decreases n,
    {
        if n > 0 {
            let m = (n - 1) as nat;
            let tile = tiles[n - 1].1;
            let len = tile.point_ids@.len();
            assert(tile.well_formed());
            assert forall|b: int| 0 <= b < 4 implies #[trigger] total_weight(tiles, b, m) + tile_weight(
                tile,
                b,
            ) == total_weight(tiles, b, n) && tile_weight(tile, b) >= 0 by {
                if b < tile.bands@.len() {
                    lemma_sum_within_weight(tile.bands@[b].values@);
                }
            }
            assert forall|b: int| 0 <= b < 4 implies #[trigger] total_weight(tiles, b, m)
                <= i32::MAX by {
                assert(total_weight(tiles, b, n) <= i32::MAX);
            }
            self.lemma_light_tiles(tiles, corners, m);
            let before = self.of_tiles(tiles, corners, m)->Some_0;
            let weights = Seq::new(4, |b: int| total_weight(tiles, b, m));
            assert forall|b: int| 0 <= b < 4 implies 0 <= (#[trigger] weights[b]) && weights[b]
                + tile_weight(tile, b) <= i32::MAX by {
                assert(total_weight(tiles, b, m) >= 0);
                assert(total_weight(tiles, b, n) <= i32::MAX);
            }
            let groups = groups_of(tile, self.scale as nat).len();
            self.lemma_light_groups(
                before,
                tile,
                corners[n - 1]@,
                weights,
                total_cells(tiles, m),
                groups,
            );
            let after = self.weights_at(tile, weights, len as int);
            let total = Seq::new(4, |b: int| total_weight(tiles, b, n));
            assert(after =~= total) by {
                assert forall|b: int| 0 <= b < 4 implies #[trigger] after[b] == total[b] by {
                    assert(total_weight(tiles, b, m) + tile_weight(tile, b) == total_weight(
                        tiles,
                        b,
                        n,
                    ));
                    if b < tile.bands@.len() {
                        assert(tile.bands@[b].values@.len() == len);
                        assert(tile.bands@[b].values@.take(len as int)
                            =~= tile.bands@[b].values@);
                    }
                }
            }
            assert(self.place_of(tile, groups as int) == len);
            assert forall|b: int| 0 <= b < 4 implies #[trigger] total_weight(tiles, b, n) >= 0 by {
                assert(total_weight(tiles, b, m) >= 0);
            }
        }
    }

    /// Sums are gathered wherever they fit: where the sizes of all values of each band add up to no
    /// more than 31 bits, and the cells can be counted in as many, gathering does not fail.
    pub proof fn law_small_sums_are_gathered(
        self,
        tiles: Seq<(u64, BaseTile)>,
        corners: Seq<Vec<Corners>>,
    )
        requires
            self.well_formed(),
            forall|t: int| 0 <= t < tiles.len() ==> (#[trigger] tiles[t]).1.well_formed(),
            forall|b: int|
                0 <= b < 4 ==> #[trigger] total_weight(tiles, b, tiles.len()) <= i32::MAX,
            total_cells(tiles, tiles.len()) <= i32::MAX,
        ensures
            self.of_tiles(tiles, corners, tiles.len()) is Some,
    {
        if self.aggregation == Aggregation::RoughAvg {
            self.lemma_light_tiles(tiles, corners, tiles.len());
        } else {
            self.lemma_tiles_packed(tiles, corners, tiles.len());
        }
    }
}

} // verus!
