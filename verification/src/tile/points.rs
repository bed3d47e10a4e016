//! Cells of the grid and how their values come together.
use crate::model::{Aggregation, CompactOptI32};
use crate::omit::{all_omissions, BandOmit, Omission};
use crate::quantize::{
    all_classes, all_well_formed, law_classes_cover_every_value, BandQuantize, Classes,
};
use crate::vectors::lemma_kept_and_mapped;
use foldhash::fast::RandomState;
use indexmap::IndexMap;
use vstd::prelude::*;

verus! {

// ---------------------------------------------------------------------------
// What is combined
// ---------------------------------------------------------------------------

/// A cell: the value of each band, how many values went into each, and the power of two that is
/// its width.
#[derive(Clone, Copy, Debug, PartialEq, Eq)]
pub struct Point {
    pub values: [CompactOptI32; 4],
    pub counts: [i32; 4],
    pub power: u8,
}

/// A cell as sequences of integers.
#[verifier::ext_equal]
pub struct Cell {
    pub values: Seq<Option<int>>,
    pub counts: Seq<int>,
    pub power: u8,
}

/// The value as an integer.
pub open spec fn plain(value: CompactOptI32) -> Option<int> {
    match value@ {
        Some(value) => Some(value as int),
        None => None,
    }
}

impl View for Point {
    type V = Cell;

    open spec fn view(&self) -> Cell {
        Cell {
            values: Seq::new(4, |b: int| plain(self.values@[b])),
            counts: Seq::new(4, |b: int| self.counts@[b] as int),
            power: self.power,
        }
    }
}

/// Two values become one; a missing value changes nothing.
pub open spec fn combined(aggregation: Aggregation, a: Option<int>, b: Option<int>) -> Option<int> {
    match (a, b) {
        (None, _) => b,
        (_, None) => a,
        (Some(a), Some(b)) => Some(
            match aggregation {
                Aggregation::Max => if a >= b {
                    a
                } else {
                    b
                },
                Aggregation::Min => if a <= b {
                    a
                } else {
                    b
                },
                Aggregation::RoughAvg => a + b,
                Aggregation::BitOr => ((a as i32) | (b as i32)) as int,
            },
        ),
    }
}

/// The values of several cells become one.
pub open spec fn aggregated(aggregation: Aggregation, values: Seq<CompactOptI32>) -> Option<int>
    decreases values.len(),
{
    if values.len() == 0 {
        None
    } else {
        combined(
            aggregation,
            aggregated(aggregation, values.drop_last()),
            plain(values.last()),
        )
    }
}

/// How many values are there.
pub open spec fn present(values: Seq<CompactOptI32>) -> nat
    decreases values.len(),
{
    if values.len() == 0 {
        0
    } else if values.last()@ is Some {
        present(values.drop_last()) + 1
    } else {
        present(values.drop_last())
    }
}

/// How many values are remembered to have gone into an aggregate.
pub open spec fn counted(aggregation: Aggregation, values: Seq<CompactOptI32>) -> int {
    if aggregation == Aggregation::RoughAvg {
        present(values) as int
    } else {
        0
    }
}

/// The value, if there is one, can be packed.
pub open spec fn packable(value: Option<int>) -> bool {
    value matches Some(value) ==> i32::MIN < value <= i32::MAX
}

/// The value, if there is one, is a 32-bit integer.
pub open spec fn narrow(value: Option<int>) -> bool {
    value matches Some(value) ==> i32::MIN <= value <= i32::MAX
}

/// Neither the aggregate nor, where it is a sum, any sum on the way leaves 32 bits.
pub open spec fn aggregate_fits(aggregation: Aggregation, values: Seq<CompactOptI32>) -> bool {
    aggregation == Aggregation::RoughAvg ==> {
        &&& values.len() <= i32::MAX
        &&& packable(aggregated(aggregation, values))
        &&& forall|n: int|
            0 <= n <= values.len() ==> narrow(aggregated(aggregation, #[trigger] values.take(n)))
    }
}

proof fn lemma_or(a: i32, b: i32)
    ensures
        a != i32::MIN && b != i32::MIN ==> a | b != i32::MIN,
        0i32 | b == b,
        a | b == b | a,
{
    assert(a != i32::MIN && b != i32::MIN ==> a | b != i32::MIN) by (bit_vector);
    assert(0i32 | b == b) by (bit_vector);
    assert(a | b == b | a) by (bit_vector);
}

/// In which order two values come does not matter.
pub proof fn law_combining_commutes(aggregation: Aggregation, a: Option<int>, b: Option<int>)
    ensures
        combined(aggregation, a, b) == combined(aggregation, b, a),
{
    if let (Some(a), Some(b)) = (a, b) {
        lemma_or(a as i32, b as i32);
    }
}

/// Which of three values come together first does not matter, so that cells can be gathered in
/// any number of parts.
pub proof fn law_combining_associates(
    aggregation: Aggregation,
    a: Option<int>,
    b: Option<int>,
    c: Option<int>,
)
    ensures
        combined(aggregation, combined(aggregation, a, b), c) == combined(
            aggregation,
            a,
            combined(aggregation, b, c),
        ),
{
    if let (Some(a), Some(b), Some(c)) = (a, b, c) {
        let (x, y, z) = (a as i32, b as i32, c as i32);
        assert((x | y) | z == x | (y | z)) by (bit_vector);
    }
}

/// An aggregate of two runs of cells is what their aggregates combine to.
pub proof fn law_aggregates_combine(
    aggregation: Aggregation,
    left: Seq<CompactOptI32>,
    right: Seq<CompactOptI32>,
)
    ensures
        aggregated(aggregation, left + right) == combined(
            aggregation,
            aggregated(aggregation, left),
            aggregated(aggregation, right),
        ),
        counted(aggregation, left + right) == counted(aggregation, left) + counted(
            aggregation,
            right,
        ),
    decreases right.len(),
{
    if right.len() == 0 {
        assert(left + right =~= left);
    } else {
        law_aggregates_combine(aggregation, left, right.drop_last());
        assert((left + right).drop_last() =~= left + right.drop_last());
        law_combining_associates(
            aggregation,
            aggregated(aggregation, left),
            aggregated(aggregation, right.drop_last()),
            plain(right.last()),
        );
    }
}

/// A greatest value is one of the values and none exceeds it; a least value likewise.
pub proof fn law_extremes_are_extreme(values: Seq<CompactOptI32>, i: int)
    requires
        0 <= i < values.len(),
    ensures
        plain(values[i]) matches Some(value) ==> {
            &&& aggregated(Aggregation::Max, values) matches Some(most) && value <= most
            &&& aggregated(Aggregation::Min, values) matches Some(least) && least <= value
        },
    decreases values.len(),
{
    if i < values.len() - 1 {
        law_extremes_are_extreme(values.drop_last(), i);
    }
}

/// What values come to can be packed, unless they are added up.
pub proof fn lemma_aggregate_packable(aggregation: Aggregation, values: Seq<CompactOptI32>)
    requires
        aggregation != Aggregation::RoughAvg,
    ensures
        packable(aggregated(aggregation, values)),
    decreases values.len(),
{
    if values.len() > 0 {
        lemma_aggregate_packable(aggregation, values.drop_last());
        lemma_combined_packable(
            aggregation,
            aggregated(aggregation, values.drop_last()),
            plain(values.last()),
        );
    }
}

/// Two values that can be packed become one that can be packed, unless they are added up.
pub proof fn lemma_combined_packable(aggregation: Aggregation, a: Option<int>, b: Option<int>)
    requires
        aggregation != Aggregation::RoughAvg,
        packable(a),
        packable(b),
    ensures
        packable(combined(aggregation, a, b)),
{
    if let (Some(a), Some(b)) = (a, b) {
        lemma_or(a as i32, b as i32);
    }
}

/// There are no more values than cells, and a sum exactly where there is a value.
pub proof fn lemma_present(values: Seq<CompactOptI32>)
    ensures
        present(values) <= values.len(),
        present(values) == 0 <==> aggregated(Aggregation::RoughAvg, values) is None,
    decreases values.len(),
{
    if values.len() > 0 {
        lemma_present(values.drop_last());
    }
}

/// Two values become one.
fn combine(aggregation: Aggregation, a: Option<i32>, b: i32) -> (result: i32)
    requires
        b != i32::MIN,
        a matches Some(a) ==> (aggregation == Aggregation::RoughAvg ==> i32::MIN <= a + b
            <= i32::MAX),
    ensures
        Some(result as int) == combined(
            aggregation,
            match a {
                Some(a) => Some(a as int),
                None => None,
            },
            Some(b as int),
        ),
        a != Some(i32::MIN) && aggregation != Aggregation::RoughAvg ==> result != i32::MIN,
{
    match a {
        None => b,
        Some(a) => {
            proof {
                lemma_or(a, b);
            }
            match aggregation {
                Aggregation::Max => if a >= b {
                    a
                } else {
                    b
                },
                Aggregation::Min => if a <= b {
                    a
                } else {
                    b
                },
                Aggregation::RoughAvg => a + b,
                Aggregation::BitOr => a | b,
            }
        },
    }
}

/// Brings the values of several cells together, and counts them where they are summed up.
pub fn aggregate_band(values: &[CompactOptI32], aggregation: Aggregation) -> (result: (
    CompactOptI32,
    i32,
))
    requires
        aggregate_fits(aggregation, values@),
    ensures
        plain(result.0) == aggregated(aggregation, values@),
        result.1 == counted(aggregation, values@),
{
    let mut total: Option<i32> = None;
    let mut count: i32 = 0;
    let n: usize = values.len();
    for i in 0..n
        invariant
            n == values@.len(),
            aggregate_fits(aggregation, values@),
            match total {
                Some(total) => aggregated(aggregation, values@.take(i as int)) == Some(total as int),
                None => aggregated(aggregation, values@.take(i as int)) is None,
            },
            aggregation != Aggregation::RoughAvg ==> total != Some(i32::MIN),
            count == counted(aggregation, values@.take(i as int)),
    {
        proof {
            let now = values@.take(i as int + 1);
            assert(now.drop_last() =~= values@.take(i as int));
            assert(now.last() == values@[i as int]);
            lemma_present(values@.take(i as int));
            if aggregation == Aggregation::RoughAvg {
                assert(narrow(aggregated(aggregation, now)));
            }
        }
        if let Some(value) = values[i].get() {
            total = Some(combine(aggregation, total, value));
            if matches!(aggregation, Aggregation::RoughAvg) {
                count = count + 1;
            }
        }
    }
    proof {
        assert(values@.take(n as int) =~= values@);
        lemma_present(values@);
    }
    (CompactOptI32::new(total), count)
}

/// Whether no sum of the values, nor any sum on the way to it, leaves 32 bits.
pub(crate) fn aggregate_within(values: &[CompactOptI32], aggregation: Aggregation) -> (answer: bool)
    ensures
        answer == aggregate_fits(aggregation, values@),
{
    if !matches!(aggregation, Aggregation::RoughAvg) {
        return true;
    }
    let n: usize = values.len();
    if n > 0x7fff_ffff {
        return false;
    }
    let mut total: i64 = 0;
    let mut found = false;
    proof {
        assert(aggregated(aggregation, values@.take(0)) is None);
    }
    for i in 0..n
        invariant
            aggregation == Aggregation::RoughAvg,
            n == values@.len(),
            n <= i32::MAX,
            i32::MIN <= total <= i32::MAX,
            found ==> aggregated(aggregation, values@.take(i as int)) == Some(total as int),
            !found ==> total == 0 && aggregated(aggregation, values@.take(i as int)) is None,
            forall|k: int|
                0 <= k <= i ==> narrow(aggregated(aggregation, #[trigger] values@.take(k))),
    {
        proof {
            let now = values@.take(i as int + 1);
            assert(now.drop_last() =~= values@.take(i as int));
            assert(now.last() == values@[i as int]);
        }
        if let Some(value) = values[i].get() {
            total = total + value as i64;
            found = true;
            if total < -0x8000_0000 || total > 0x7fff_ffff {
                proof {
                    assert(!narrow(aggregated(aggregation, values@.take(i as int + 1))));
                }
                return false;
            }
        }
    }
    proof {
        assert(values@.take(n as int) =~= values@);
    }
    !found || total != -0x8000_0000
}

// ---------------------------------------------------------------------------
// Collections of cells
// ---------------------------------------------------------------------------

/// `indexmap::IndexMap`, which is opaque here.
#[verifier::external_type_specification]
#[verifier::external_body]
#[verifier::reject_recursive_types(K)]
#[verifier::reject_recursive_types(V)]
#[verifier::reject_recursive_types(S)]
pub struct ExIndexMap<K, V, S>(IndexMap<K, V, S>);

/// `foldhash::fast::RandomState`, which is opaque here.
#[verifier::external_type_specification]
#[verifier::external_body]
pub struct ExRandomState(RandomState);

/// Cells by column and row, in the order in which they came.
pub type Points = IndexMap<(u32, u32), Point, RandomState>;

/// The keys and values of an `indexmap::IndexMap`, in its order.
pub uninterp spec fn point_entries(
    points: IndexMap<(u32, u32), Point, RandomState>,
) -> Seq<((u32, u32), Point)>;

/// Calls `indexmap::IndexMap::default`: a map without entries.
#[verifier::external_body]
pub(crate) fn new_points() -> (points: Points)
    ensures
        point_entries(points) == Seq::<((u32, u32), Point)>::empty(),
{
    IndexMap::default()
}

/// Calls `indexmap::IndexMap::get`: the value under a key. A key occurs once.
#[verifier::external_body]
fn point_under(points: &Points, key: (u32, u32)) -> (point: Option<Point>)
    ensures
        match point {
            Some(point) => point_entries(*points).contains((key, point)) && forall|i: int|
                0 <= i < point_entries(*points).len() && (#[trigger] point_entries(*points)[i]).0
                    == key ==> point_entries(*points)[i].1 == point,
            None => forall|i: int|
                0 <= i < point_entries(*points).len() ==> (#[trigger] point_entries(*points)[i]).0
                    != key,
        },
{
    points.get(&key).copied()
}

/// Calls `indexmap::IndexMap::insert`: replaces the value under a key in its place, or appends a
/// new entry.
#[verifier::external_body]
fn put_point(points: &mut Points, key: (u32, u32), point: Point)
    ensures
        point_entries(*final(points)) == (if exists|i: int|
            0 <= i < point_entries(*old(points)).len() && (#[trigger] point_entries(
                *old(points),
            )[i]).0 == key {
            point_entries(*old(points)).map_values(
                |entry: ((u32, u32), Point)|
                    if entry.0 == key {
                        (key, point)
                    } else {
                        entry
                    },
            )
        } else {
            point_entries(*old(points)).push((key, point))
        }),
{
    points.insert(key, point);
}

/// Calls `indexmap::IndexMap::len`: the number of entries.
#[verifier::external_body]
pub(crate) fn point_count(points: &Points) -> (count: usize)
    ensures
        count == point_entries(*points).len(),
{
    points.len()
}

/// Calls `indexmap::IndexMap::get_index`: the entry at a place.
#[verifier::external_body]
pub(crate) fn point_at(points: &Points, index: usize) -> (entry: ((u32, u32), Point))
    requires
        index < point_entries(*points).len(),
    ensures
        entry == point_entries(*points)[index as int],
{
    points.get_index(index).map(|(key, point)| (*key, *point)).expect("within the map")
}

/// Calls `indexmap::IndexMap::get_index_mut`: replaces the value at a place.
#[verifier::external_body]
fn replace_point(points: &mut Points, index: usize, point: Point)
    requires
        index < point_entries(*old(points)).len(),
    ensures
        point_entries(*final(points)) == point_entries(*old(points)).update(
            index as int,
            (point_entries(*old(points))[index as int].0, point),
        ),
{
    *points.get_index_mut(index).expect("within the map").1 = point;
}

/// Calls `indexmap::IndexMap::retain`: keeps the cells with a value, in their order.
#[verifier::external_body]
fn keep_valued(points: &mut Points, band_count: usize)
    requires
        band_count <= 4,
    ensures
        point_entries(*final(points)) == point_entries(*old(points)).filter(
            |entry: ((u32, u32), Point)| valued(entry.1@, band_count as int),
        ),
{
    points.retain(|_, point| has_value(point, band_count));
}

/// The cell under its column and row.
pub type Entry = ((u32, u32), Cell);

/// The cells of a map, in its order.
pub open spec fn entries(points: Points) -> Seq<Entry> {
    point_entries(points).map_values(|entry: ((u32, u32), Point)| (entry.0, entry.1@))
}

/// Some cell stands under the key.
pub open spec fn has_key(cells: Seq<Entry>, key: (u32, u32)) -> bool {
    exists|i: int| 0 <= i < cells.len() && (#[trigger] cells[i]).0 == key
}

/// What two cells under one key become. Bands beyond the active ones stay as they are.
pub open spec fn merged(
    cell: Cell,
    incoming: Cell,
    aggregation: Aggregation,
    band_count: int,
) -> Cell {
    Cell {
        values: Seq::new(
            4,
            |b: int|
                if b < band_count {
                    combined(aggregation, cell.values[b], incoming.values[b])
                } else {
                    cell.values[b]
                },
        ),
        counts: Seq::new(
            4,
            |b: int|
                if b < band_count && aggregation == Aggregation::RoughAvg {
                    cell.counts[b] + incoming.counts[b]
                } else {
                    cell.counts[b]
                },
        ),
        power: if cell.power >= incoming.power {
            cell.power
        } else {
            incoming.power
        },
    }
}

/// The sums that merging makes fit in 32 bits.
pub open spec fn merge_fits(cell: Cell, incoming: Cell, band_count: int) -> bool {
    forall|b: int|
        0 <= b < band_count ==> {
            &&& packable(
                #[trigger] combined(Aggregation::RoughAvg, cell.values[b], incoming.values[b]),
            )
            &&& i32::MIN <= cell.counts[b] + incoming.counts[b] <= i32::MAX
        }
}

/// The cells with one more under a key.
pub open spec fn with_cell(
    cells: Seq<Entry>,
    key: (u32, u32),
    incoming: Cell,
    aggregation: Aggregation,
    band_count: int,
) -> Seq<Entry> {
    if has_key(cells, key) {
        cells.map_values(
            |entry: Entry|
                if entry.0 == key {
                    (key, merged(entry.1, incoming, aggregation, band_count))
                } else {
                    entry
                },
        )
    } else {
        cells.push((key, incoming))
    }
}

/// The cells can take one more under a key.
pub open spec fn takes_cell(
    cells: Seq<Entry>,
    key: (u32, u32),
    incoming: Cell,
    aggregation: Aggregation,
    band_count: int,
) -> bool {
    aggregation == Aggregation::RoughAvg ==> forall|i: int|
        0 <= i < cells.len() && (#[trigger] cells[i]).0 == key ==> merge_fits(
            cells[i].1,
            incoming,
            band_count,
        )
}

/// What two cells become.
fn merge(point: Point, incoming: Point, aggregation: Aggregation, band_count: usize) -> (result:
    Point)
    requires
        band_count <= 4,
        aggregation == Aggregation::RoughAvg ==> merge_fits(point@, incoming@, band_count as int),
    ensures
        result@ == merged(point@, incoming@, aggregation, band_count as int),
{
    let mut result = point;
    for b in 0..band_count
        invariant
            band_count <= 4,
            aggregation == Aggregation::RoughAvg ==> merge_fits(
                point@,
                incoming@,
                band_count as int,
            ),
            result.power == point.power,
            forall|k: int|
                0 <= k < b ==> plain(#[trigger] result.values@[k]) == combined(
                    aggregation,
                    point@.values[k],
                    incoming@.values[k],
                ),
            forall|k: int| b <= k < 4 ==> #[trigger] result.values@[k] == point.values@[k],
            forall|k: int|
                0 <= k < b ==> #[trigger] result.counts@[k] == (if aggregation
                    == Aggregation::RoughAvg {
                    point.counts@[k] + incoming.counts@[k]
                } else {
                    point.counts@[k] as int
                }),
            forall|k: int| b <= k < 4 ==> #[trigger] result.counts@[k] == point.counts@[k],
    {
        proof {
            let (x, y) = (point@.values[b as int], incoming@.values[b as int]);
            assert(aggregation == Aggregation::RoughAvg ==> packable(
                combined(Aggregation::RoughAvg, x, y),
            ));
        }
        if let Some(value) = incoming.values[b].get() {
            let value: i32 = combine(aggregation, point.values[b].get(), value);
            result.values[b] = CompactOptI32::new(Some(value));
        }
        if matches!(aggregation, Aggregation::RoughAvg) {
            result.counts[b] = point.counts[b] + incoming.counts[b];
        }
    }
    if incoming.power > result.power {
        result.power = incoming.power;
    }
    proof {
        let expected = merged(point@, incoming@, aggregation, band_count as int);
        assert(result@.values =~= expected.values);
        assert(result@.counts =~= expected.counts);
    }
    result
}

/// Puts a cell under its key, merging it with the one that stands there.
pub fn merge_point(
    points: &mut Points,
    key: (u32, u32),
    incoming: Point,
    aggregation: Aggregation,
    band_count: usize,
)
    requires
        band_count <= 4,
        takes_cell(entries(*old(points)), key, incoming@, aggregation, band_count as int),
    ensures
        entries(*final(points)) == with_cell(
            entries(*old(points)),
            key,
            incoming@,
            aggregation,
            band_count as int,
        ),
{
    let ghost before = point_entries(*points);
    let ghost cells = entries(*points);
    match point_under(points, key) {
        None => {
            proof {
                assert(!has_key(cells, key)) by {
                    if has_key(cells, key) {
                        let i = choose|i: int| 0 <= i < cells.len() && (#[trigger] cells[i]).0 == key;
                        assert(before[i].0 == key);
                    }
                }
            }
            put_point(points, key, incoming);
            proof {
                assert(entries(*points) =~= cells.push((key, incoming@)));
            }
        },
        Some(point) => {
            proof {
                let i = choose|i: int| 0 <= i < before.len() && before[i] == (key, point);
                assert(cells[i] == (key, point@));
                assert(before[i].0 == key);
            }
            let result = merge(point, incoming, aggregation, band_count);
            put_point(points, key, result);
            proof {
                assert(entries(*points) =~= with_cell(
                    cells,
                    key,
                    incoming@,
                    aggregation,
                    band_count as int,
                )) by {
                    assert forall|i: int| 0 <= i < before.len() implies (#[trigger] entries(
                        *points,
                    )[i]) == with_cell(cells, key, incoming@, aggregation, band_count as int)[i] by {
                        assert(cells[i] == (before[i].0, before[i].1@));
                    }
                }
            }
        },
    }
}

/// Whether merging a cell with another leaves all sums within 32 bits.
fn merge_within(point: &Point, incoming: &Point, band_count: usize) -> (answer: bool)
    requires
        band_count <= 4,
    ensures
        answer == merge_fits(point@, incoming@, band_count as int),
{
    for b in 0..band_count
        invariant
            band_count <= 4,
            forall|k: int|
                0 <= k < b ==> {
                    &&& packable(
                        #[trigger] combined(
                            Aggregation::RoughAvg,
                            point@.values[k],
                            incoming@.values[k],
                        ),
                    )
                    &&& i32::MIN <= point@.counts[k] + incoming@.counts[k] <= i32::MAX
                },
    {
        let ghost total = combined(
            Aggregation::RoughAvg,
            point@.values[b as int],
            incoming@.values[b as int],
        );
        if let (Some(a), Some(c)) = (point.values[b].get(), incoming.values[b].get()) {
            let sum: i64 = a as i64 + c as i64;
            if sum <= -0x8000_0000 || sum > 0x7fff_ffff {
                proof {
                    assert(!packable(total));
                }
                return false;
            }
        }
        let count: i64 = point.counts[b] as i64 + incoming.counts[b] as i64;
        if count < -0x8000_0000 || count > 0x7fff_ffff {
            proof {
                assert(packable(total) || !packable(total));
            }
            return false;
        }
    }
    true
}

/// Puts a cell under its key where the sums that this makes fit; says whether they do.
pub fn try_merge_point(
    points: &mut Points,
    key: (u32, u32),
    incoming: Point,
    aggregation: Aggregation,
    band_count: usize,
) -> (done: bool)
    requires
        band_count <= 4,
    ensures
        done == takes_cell(entries(*old(points)), key, incoming@, aggregation, band_count as int),
        entries(*final(points)) == (if done {
            with_cell(entries(*old(points)), key, incoming@, aggregation, band_count as int)
        } else {
            entries(*old(points))
        }),
{
    let ghost before = point_entries(*points);
    let ghost cells = entries(*points);
    if matches!(aggregation, Aggregation::RoughAvg) {
        match point_under(points, key) {
            None => {
                proof {
                    assert(forall|i: int|
                        0 <= i < cells.len() ==> (#[trigger] cells[i]).0 == before[i].0);
                }
            },
            Some(point) => {
                proof {
                    let i = choose|i: int| 0 <= i < before.len() && before[i] == (key, point);
                    assert(cells[i] == (key, point@));
                    assert forall|k: int|
                        0 <= k < cells.len() && (#[trigger] cells[k]).0 == key implies cells[k].1
                        == point@ by {
                        assert(before[k].0 == key);
                    }
                }
                if !merge_within(&point, &incoming, band_count) {
                    return false;
                }
            },
        }
    }
    merge_point(points, key, incoming, aggregation, band_count);
    true
}

// ---------------------------------------------------------------------------
// What becomes of the cells of a tile
// ---------------------------------------------------------------------------

/// The quotient without its fraction.
pub open spec fn truncated(a: int, b: int) -> int {
    if a >= 0 {
        a / b
    } else {
        -((-a) / b)
    }
}

/// The cell with averages in place of sums.
pub open spec fn averaged(cell: Cell, band_count: int) -> Cell {
    Cell {
        values: Seq::new(
            4,
            |b: int|
                if b < band_count {
                    match cell.values[b] {
                        Some(sum) => Some(truncated(sum, cell.counts[b])),
                        None => None,
                    }
                } else {
                    cell.values[b]
                },
        ),
        ..cell
    }
}

/// The cell with classes in place of values.
pub open spec fn quantized(cell: Cell, classes: Seq<Option<Classes>>) -> Cell {
    Cell {
        values: Seq::new(
            4,
            |b: int|
                if b < classes.len() {
                    match (cell.values[b], classes[b]) {
                        (Some(value), Some(classes)) => Some(classes.class_of(value as i32)),
                        _ => cell.values[b],
                    }
                } else {
                    cell.values[b]
                },
        ),
        ..cell
    }
}

/// The cell without the values that are left out.
pub open spec fn cleared(cell: Cell, omissions: Seq<Option<Omission>>) -> Cell {
    Cell {
        values: Seq::new(
            4,
            |b: int|
                if b < omissions.len() {
                    match (cell.values[b], omissions[b]) {
                        (Some(value), Some(omission)) => if omission.stored.contains(value as i32) {
                            None
                        } else {
                            Some(value)
                        },
                        _ => cell.values[b],
                    }
                } else {
                    cell.values[b]
                },
        ),
        ..cell
    }
}

/// Some active band of the cell has a value.
pub open spec fn valued(cell: Cell, band_count: int) -> bool {
    exists|b: int| 0 <= b < band_count && (#[trigger] cell.values[b]) is Some
}

/// Whether some active band of a cell has a value.
fn has_value(point: &Point, band_count: usize) -> (answer: bool)
    requires
        band_count <= 4,
    ensures
        answer == valued(point@, band_count as int),
{
    for b in 0..band_count
        invariant
            band_count <= 4,
            forall|k: int| 0 <= k < b ==> (#[trigger] point@.values[k]) is None,
    {
        if point.values[b].get().is_some() {
            proof {
                assert(point@.values[b as int] is Some);
            }
            return true;
        }
    }
    false
}

/// A summed cell counts at least one value wherever it has one.
pub open spec fn well_counted(cell: Cell, band_count: int) -> bool {
    forall|b: int|
        0 <= b < band_count ==> (#[trigger] cell.counts[b]) >= 0 && (cell.values[b] is Some
            ==> cell.counts[b] >= 1)
}

/// All summed cells count at least one value wherever they have one.
pub open spec fn all_well_counted(cells: Seq<Entry>, band_count: int) -> bool {
    forall|i: int| 0 <= i < cells.len() ==> well_counted((#[trigger] cells[i]).1, band_count)
}

proof fn lemma_truncated(a: int, b: int)
    requires
        b >= 1,
        i32::MIN < a <= i32::MAX,
    ensures
        i32::MIN < truncated(a, b) <= i32::MAX,
{
    if a >= 0 {
        vstd::arithmetic::div_mod::lemma_div_is_ordered_by_denominator(a, 1, b);
        vstd::arithmetic::div_mod::lemma_div_pos_is_pos(a, b);
    } else {
        vstd::arithmetic::div_mod::lemma_div_is_ordered_by_denominator(-a, 1, b);
        vstd::arithmetic::div_mod::lemma_div_pos_is_pos(-a, b);
    }
}

/// The cell with averages in place of sums.
fn average(point: Point, band_count: usize) -> (result: Point)
    requires
        band_count <= 4,
        well_counted(point@, band_count as int),
    ensures
        result@ == averaged(point@, band_count as int),
{
    let mut result = point;
    for b in 0..band_count
        invariant
            band_count <= 4,
            well_counted(point@, band_count as int),
            result.power == point.power,
            result.counts == point.counts,
            forall|k: int|
                0 <= k < b ==> plain(#[trigger] result.values@[k]) == averaged(
                    point@,
                    band_count as int,
                ).values[k],
            forall|k: int| b <= k < 4 ==> #[trigger] result.values@[k] == point.values@[k],
    {
        if let Some(sum) = point.values[b].get() {
            let count: i32 = point.counts[b];
            proof {
                assert(point@.counts[b as int] >= 0);
                lemma_truncated(sum as int, count as int);
            }
            let mean: i32 = if sum >= 0 {
                sum / count
            } else {
                -((-sum) / count)
            };
            result.values[b] = CompactOptI32::new(Some(mean));
        }
    }
    proof {
        assert(result@.values =~= averaged(point@, band_count as int).values);
        assert(result@.counts =~= point@.counts);
    }
    result
}

/// The cell with classes in place of values.
fn quantize_point(point: Point, quantize: &Vec<Option<BandQuantize>>) -> (result: Point)
    requires
        quantize@.len() <= 4,
        all_well_formed(all_classes(quantize@)),
    ensures
        result@ == quantized(point@, all_classes(quantize@)),
{
    let ghost classes = all_classes(quantize@);
    let mut result = point;
    for b in 0..quantize.len()
        invariant
            quantize@.len() <= 4,
            classes == all_classes(quantize@),
            all_well_formed(classes),
            result.power == point.power,
            result.counts == point.counts,
            forall|k: int|
                0 <= k < b ==> plain(#[trigger] result.values@[k]) == quantized(
                    point@,
                    classes,
                ).values[k],
            forall|k: int| b <= k < 4 ==> #[trigger] result.values@[k] == point.values@[k],
    {
        if let Some(entry) = &quantize[b] {
            proof {
                assert(classes[b as int] == Some(entry@));
            }
            if let Some(value) = point.values[b].get() {
                result.values[b] = CompactOptI32::new(Some(entry.class_of(value)));
            }
        } else {
            proof {
                assert(classes[b as int] is None);
            }
        }
    }
    proof {
        assert(result@.values =~= quantized(point@, classes).values);
        assert(result@.counts =~= point@.counts);
    }
    result
}

/// The cell without the values that are left out.
fn clear_point(point: Point, omit: &Vec<Option<BandOmit>>) -> (result: Point)
    requires
        omit@.len() <= 4,
    ensures
        result@ == cleared(point@, all_omissions(omit@)),
{
    let ghost omissions = all_omissions(omit@);
    let mut result = point;
    for b in 0..omit.len()
        invariant
            omit@.len() <= 4,
            omissions == all_omissions(omit@),
            result.power == point.power,
            result.counts == point.counts,
            forall|k: int|
                0 <= k < b ==> plain(#[trigger] result.values@[k]) == cleared(
                    point@,
                    omissions,
                ).values[k],
            forall|k: int| b <= k < 4 ==> #[trigger] result.values@[k] == point.values@[k],
    {
        if let Some(entry) = &omit[b] {
            proof {
                assert(omissions[b as int] == Some(entry@));
            }
            if let Some(value) = point.values[b].get() {
                if entry.contains(value) {
                    result.values[b] = CompactOptI32::none();
                }
            }
        } else {
            proof {
                assert(omissions[b as int] is None);
            }
        }
    }
    proof {
        assert(result@.values =~= cleared(point@, omissions).values);
        assert(result@.counts =~= point@.counts);
    }
    result
}

/// What becomes of each cell.
#[derive(Debug)]
pub struct Finish<'a> {
    pub aggregation: Aggregation,
    pub quantize: &'a Vec<Option<BandQuantize>>,
    pub omit: &'a Vec<Option<BandOmit>>,
    pub band_count: usize,
}

impl<'a> Finish<'a> {
    /// There are at most four bands, and their classes are well formed.
    pub open spec fn well_formed(self) -> bool {
        &&& self.band_count <= 4
        &&& self.quantize@.len() <= 4
        &&& self.omit@.len() <= 4
        &&& all_well_formed(all_classes(self.quantize@))
    }

    /// What becomes of a cell: sums become averages, values become classes, and what is to be
    /// left out is cleared.
    pub open spec fn cell(self, cell: Cell) -> Cell {
        let mean = if self.aggregation == Aggregation::RoughAvg {
            averaged(cell, self.band_count as int)
        } else {
            cell
        };
        cleared(quantized(mean, all_classes(self.quantize@)), all_omissions(self.omit@))
    }

    /// Something is left out of some band.
    pub open spec fn omits_something(self) -> bool {
        exists|b: int| 0 <= b < self.omit@.len() && (#[trigger] self.omit@[b]) is Some
    }

    /// What becomes of all cells. Where anything is left out, cells without a value go.
    pub open spec fn cells(self, cells: Seq<Entry>) -> Seq<Entry> {
        let finished = cells.map_values(|entry: Entry| (entry.0, self.cell(entry.1)));
        if self.omits_something() {
            finished.filter(|entry: Entry| valued(entry.1, self.band_count as int))
        } else {
            finished
        }
    }

    /// Finishes one cell.
    fn finish_point(&self, point: Point) -> (result: Point)
        requires
            self.well_formed(),
            self.aggregation == Aggregation::RoughAvg ==> well_counted(
                point@,
                self.band_count as int,
            ),
        ensures
            result@ == self.cell(point@),
    {
        let mean = if matches!(self.aggregation, Aggregation::RoughAvg) {
            average(point, self.band_count)
        } else {
            point
        };
        clear_point(quantize_point(mean, self.quantize), self.omit)
    }

    /// Whether anything is left out of some band.
    fn any_omits(&self) -> (answer: bool)
        ensures
            answer == self.omits_something(),
    {
        for b in 0..self.omit.len()
            invariant
                forall|k: int| 0 <= k < b ==> (#[trigger] self.omit@[k]) is None,
        {
            if self.omit[b].is_some() {
                return true;
            }
        }
        false
    }

    /// Finishes all cells.
    pub fn finish_points(&self, points: &mut Points)
        requires
            self.well_formed(),
            self.aggregation == Aggregation::RoughAvg ==> all_well_counted(
                entries(*old(points)),
                self.band_count as int,
            ),
        ensures
            entries(*final(points)) == self.cells(entries(*old(points))),
    {
        let ghost before = point_entries(*points);
        let ghost start = entries(*points);
        let count = point_count(points);
        for i in 0..count
            invariant
                self.well_formed(),
                count == before.len(),
                start == before.map_values(|entry: ((u32, u32), Point)| (entry.0, entry.1@)),
                self.aggregation == Aggregation::RoughAvg ==> all_well_counted(
                    start,
                    self.band_count as int,
                ),
                point_entries(*points).len() == before.len(),
                forall|k: int|
                    0 <= k < i ==> (#[trigger] point_entries(*points)[k]).0 == before[k].0
                        && point_entries(*points)[k].1@ == self.cell(before[k].1@),
                forall|k: int| i <= k < count ==> #[trigger] point_entries(*points)[k] == before[k],
        {
            let (_, point) = point_at(points, i);
            proof {
                assert(start[i as int].1 == point@);
            }
            let result = self.finish_point(point);
            replace_point(points, i, result);
        }
        let ghost finished = start.map_values(|entry: Entry| (entry.0, self.cell(entry.1)));
        proof {
            assert(entries(*points) =~= finished) by {
                assert forall|k: int| 0 <= k < count implies (#[trigger] entries(*points)[k])
                    == finished[k] by {
                    assert(point_entries(*points)[k].0 == before[k].0);
                    assert(start[k] == (before[k].0, before[k].1@));
                }
            }
        }
        if self.any_omits() {
            proof {
                lemma_kept_and_mapped(
                    point_entries(*points),
                    |entry: ((u32, u32), Point)| (entry.0, entry.1@),
                    |entry: ((u32, u32), Point)| valued(entry.1@, self.band_count as int),
                    |entry: Entry| valued(entry.1, self.band_count as int),
                );
            }
            keep_valued(points, self.band_count);
        }
    }
}

/// Merging keeps the counts right.
pub proof fn lemma_merged_well_counted(
    cells: Seq<Entry>,
    key: (u32, u32),
    incoming: Cell,
    band_count: int,
)
    requires
        band_count <= 4,
        all_well_counted(cells, band_count),
        well_counted(incoming, band_count),
    ensures
        all_well_counted(
            with_cell(cells, key, incoming, Aggregation::RoughAvg, band_count),
            band_count,
        ),
{
    let after = with_cell(cells, key, incoming, Aggregation::RoughAvg, band_count);
    assert forall|i: int| 0 <= i < after.len() implies well_counted(
        (#[trigger] after[i]).1,
        band_count,
    ) by {
        if i < cells.len() {
            assert(well_counted(cells[i].1, band_count));
            if has_key(cells, key) && cells[i].0 == key {
                let cell = merged(cells[i].1, incoming, Aggregation::RoughAvg, band_count);
                assert(after[i].1 == cell);
                assert forall|b: int| 0 <= b < band_count implies (#[trigger] cell.counts[b]) >= 0
                    && (cell.values[b] is Some ==> cell.counts[b] >= 1) by {
                    assert(cells[i].1.counts[b] >= 0 && incoming.counts[b] >= 0);
                }
            }
        }
    }
}

/// What a sum of values counts is right.
pub proof fn lemma_aggregate_well_counted(values: Seq<CompactOptI32>)
    ensures
        counted(Aggregation::RoughAvg, values) >= 0,
        aggregated(Aggregation::RoughAvg, values) is Some ==> counted(Aggregation::RoughAvg, values)
            >= 1,
{
    lemma_present(values);
}

/// What a shown cell carries of a quantized band is a class of the band.
pub proof fn law_shown_classes_exist(finish: Finish, cells: Seq<Entry>, i: int, b: int)
    requires
        finish.well_formed(),
        0 <= i < finish.cells(cells).len(),
        0 <= b < finish.quantize@.len(),
    ensures
        match (finish.cells(cells)[i].1.values[b], all_classes(finish.quantize@)[b]) {
            (Some(value), Some(classes)) => 0 <= value < classes.outputs.len(),
            _ => true,
        },
{
    let finished = cells.map_values(|entry: Entry| (entry.0, finish.cell(entry.1)));
    let keep = |entry: Entry| valued(entry.1, finish.band_count as int);
    let k = if finish.omits_something() {
        crate::vectors::lemma_kept_are_some(finished, keep, i);
        choose|k: int| 0 <= k < finished.len() && #[trigger] finished[k] == finished.filter(keep)[i]
    } else {
        i
    };
    assert(finish.cells(cells)[i] == finished[k]);
    assert(finished[k].1 == finish.cell(cells[k].1));
    let cell = if finish.aggregation == Aggregation::RoughAvg {
        averaged(cells[k].1, finish.band_count as int)
    } else {
        cells[k].1
    };
    if let (Some(value), Some(classes)) = (cell.values[b], all_classes(finish.quantize@)[b]) {
        assert(classes.well_formed());
        law_classes_cover_every_value(classes, value as i32, 0);
    }
}

/// No cell that is shown carries a value that is left out, and where anything is left out every
/// cell that is shown has a value.
pub proof fn law_no_omitted_value_is_shown(finish: Finish, cells: Seq<Entry>, i: int, b: int)
    requires
        finish.well_formed(),
        0 <= i < finish.cells(cells).len(),
        0 <= b < finish.omit@.len(),
    ensures
        match (finish.cells(cells)[i].1.values[b], all_omissions(finish.omit@)[b]) {
            (Some(value), Some(omission)) => !omission.stored.contains(value as i32),
            _ => true,
        },
        finish.omits_something() ==> valued(finish.cells(cells)[i].1, finish.band_count as int),
{
    let finished = cells.map_values(|entry: Entry| (entry.0, finish.cell(entry.1)));
    let keep = |entry: Entry| valued(entry.1, finish.band_count as int);
    let k = if finish.omits_something() {
        crate::vectors::lemma_kept_are_some(finished, keep, i);
        choose|k: int| 0 <= k < finished.len() && #[trigger] finished[k] == finished.filter(keep)[i]
    } else {
        i
    };
    assert(finish.cells(cells)[i] == finished[k]);
    assert(finished[k].1 == finish.cell(cells[k].1));
}

// ---------------------------------------------------------------------------
// What is shown of a gathered cell
// ---------------------------------------------------------------------------

/// The value is a sum divided by a count, without the fraction.
pub open spec fn is_mean(value: int, sum: int, count: int) -> bool {
    if sum >= 0 {
        0 <= value && value * count <= sum < (value + 1) * count
    } else {
        value <= 0 && (value - 1) * count < sum <= value * count
    }
}

/// The class is that of a value: the last whose boundary the value reaches, and the first where it
/// reaches none.
pub open spec fn is_class_of(classes: Classes, class: int, value: int) -> bool {
    &&& 0 <= class < classes.raw_bounds.len()
    &&& class == 0 || classes.raw_bounds[class] <= value
    &&& class + 1 < classes.raw_bounds.len() ==> value < classes.raw_bounds[class + 1]
}

/// What a cell carries of a band in place of a gathered value: the mean where values are averaged,
/// and the class where the band is quantized.
pub open spec fn is_carried(
    finish: Finish,
    b: int,
    gathered: int,
    count: int,
    mean: int,
    carried: int,
) -> bool {
    &&& if finish.aggregation == Aggregation::RoughAvg {
        is_mean(mean, gathered, count)
    } else {
        mean == gathered
    }
    &&& if b < finish.quantize@.len() && finish.quantize@[b] is Some {
        is_class_of(finish.quantize@[b]->Some_0@, carried, mean)
    } else {
        carried == mean
    }
}

/// The value is among those that are left out of a band.
pub open spec fn is_left_out(finish: Finish, b: int, carried: int) -> bool {
    &&& b < finish.omit@.len()
    &&& finish.omit@[b] matches Some(omit) && omit@.stored.contains(carried as i32)
}

/// What is shown of a gathered value of a band: what the cell carries in its place, unless that is
/// left out.
pub open spec fn is_shown_as(
    finish: Finish,
    b: int,
    gathered: Option<int>,
    count: int,
    shown: Option<int>,
) -> bool {
    match gathered {
        None => shown is None,
        Some(gathered) => exists|mean: int, carried: int|
            {
                &&& #[trigger] is_carried(finish, b, gathered, count, mean, carried)
                &&& shown == if is_left_out(finish, b, carried) {
                    None
                } else {
                    Some(carried)
                }
            },
    }
}

/// The shown cell is the gathered one: it stands at its place, has its width, and shows its values
/// band by band.
pub open spec fn shows_cell(finish: Finish, gathered: Entry, shown: Entry) -> bool {
    &&& shown.0 == gathered.0
    &&& shown.1.power == gathered.1.power
    &&& forall|b: int|
        0 <= b < finish.band_count ==> is_shown_as(
            finish,
            b,
            gathered.1.values[b],
            gathered.1.counts[b],
            #[trigger] shown.1.values[b],
        )
}

/// The values of a cell are 32-bit integers, and it counts them where they are to be averaged.
pub open spec fn is_gathered(finish: Finish, cell: Cell) -> bool {
    &&& forall|b: int| 0 <= b < finish.band_count ==> narrow(#[trigger] cell.values[b])
    &&& finish.aggregation == Aggregation::RoughAvg ==> well_counted(cell, finish.band_count as int)
}

proof fn lemma_is_mean(sum: int, count: int)
    requires
        count >= 1,
    ensures
        is_mean(truncated(sum, count), sum, count),
{
    let magnitude = if sum >= 0 {
        sum
    } else {
        -sum
    };
    let q = magnitude / count;
    vstd::arithmetic::div_mod::lemma_fundamental_div_mod(magnitude, count);
    vstd::arithmetic::div_mod::lemma_mod_bound(magnitude, count);
    vstd::arithmetic::div_mod::lemma_div_pos_is_pos(magnitude, count);
    assert(q * count <= magnitude < (q + 1) * count) by (nonlinear_arith)
        requires
            magnitude == count * q + magnitude % count,
            0 <= magnitude % count < count,
    ;
    if sum < 0 {
        assert((-q) * count == -(q * count)) by (nonlinear_arith);
        assert((-q - 1) * count == -((q + 1) * count)) by (nonlinear_arith);
    }
}

proof fn lemma_finished_cell(finish: Finish, gathered: Entry)
    requires
        finish.well_formed(),
        is_gathered(finish, gathered.1),
    ensures
        shows_cell(finish, gathered, (gathered.0, finish.cell(gathered.1))),
{
    let cell = gathered.1;
    let shown = finish.cell(cell);
    let n = finish.band_count as int;
    assert forall|b: int| 0 <= b < n implies is_shown_as(
        finish,
        b,
        cell.values[b],
        cell.counts[b],
        #[trigger] shown.values[b],
    ) by {
        if let Some(value) = cell.values[b] {
            assert(narrow(cell.values[b]));
            let mean = if finish.aggregation == Aggregation::RoughAvg {
                assert(cell.counts[b] >= 0);
                lemma_is_mean(value, cell.counts[b]);
                if value != i32::MIN {
                    lemma_truncated(value, cell.counts[b]);
                } else {
                    vstd::arithmetic::div_mod::lemma_div_is_ordered_by_denominator(
                        -value,
                        1,
                        cell.counts[b],
                    );
                    vstd::arithmetic::div_mod::lemma_div_pos_is_pos(-value, cell.counts[b]);
                }
                truncated(value, cell.counts[b])
            } else {
                value
            };
            let classes = all_classes(finish.quantize@);
            let carried = if b < finish.quantize@.len() && finish.quantize@[b] is Some {
                let found = finish.quantize@[b]->Some_0@;
                assert(classes[b] == Some(found));
                assert(found.well_formed());
                law_classes_cover_every_value(found, mean as i32, 0);
                law_classes_cover_every_value(found, mean as i32, found.class_of(mean as i32));
                found.class_of(mean as i32)
            } else {
                mean
            };
            if b < finish.quantize@.len() && finish.quantize@[b] is None {
                assert(classes[b] is None);
            }
            let omissions = all_omissions(finish.omit@);
            if b < finish.omit@.len() {
                assert(omissions[b] == match finish.omit@[b] {
                    Some(omit) => Some(omit@),
                    None => None,
                });
            }
            assert(is_carried(finish, b, value, cell.counts[b], mean, carried));
            assert(shown.values[b] == if is_left_out(finish, b, carried) {
                None
            } else {
                Some(carried)
            });
        }
    }
}

/// Every cell that is shown is one of the gathered cells.
pub proof fn law_shown_cells_were_gathered(finish: Finish, cells: Seq<Entry>, i: int)
    requires
        finish.well_formed(),
        forall|k: int| 0 <= k < cells.len() ==> is_gathered(finish, (#[trigger] cells[k]).1),
        0 <= i < finish.cells(cells).len(),
    ensures
        exists|k: int|
            0 <= k < cells.len() && shows_cell(
                finish,
                #[trigger] cells[k],
                finish.cells(cells)[i],
            ),
{
    let finished = cells.map_values(|entry: Entry| (entry.0, finish.cell(entry.1)));
    let keep = |entry: Entry| valued(entry.1, finish.band_count as int);
    let k = if finish.omits_something() {
        crate::vectors::lemma_kept_are_some(finished, keep, i);
        choose|k: int| 0 <= k < finished.len() && #[trigger] finished[k] == finished.filter(keep)[i]
    } else {
        i
    };
    assert(finish.cells(cells)[i] == finished[k]);
    assert(is_gathered(finish, cells[k].1));
    lemma_finished_cell(finish, cells[k]);
    assert(shows_cell(finish, cells[k], finished[k]));
}

/// Nothing is shown of any band of a gathered cell.
pub open spec fn shows_nothing(finish: Finish, gathered: Entry) -> bool {
    forall|b: int|
        0 <= b < finish.band_count ==> is_shown_as(
            finish,
            b,
            #[trigger] gathered.1.values[b],
            gathered.1.counts[b],
            None,
        )
}

/// Every gathered cell is shown, unless something is left out and nothing of the cell would be
/// shown.
pub proof fn law_gathered_cells_are_shown(finish: Finish, cells: Seq<Entry>, k: int)
    requires
        finish.well_formed(),
        0 <= k < cells.len(),
        is_gathered(finish, cells[k].1),
    ensures
        (finish.omits_something() && shows_nothing(finish, cells[k])) || exists|i: int|
            0 <= i < finish.cells(cells).len() && shows_cell(
                finish,
                cells[k],
                #[trigger] finish.cells(cells)[i],
            ),
{
    let finished = cells.map_values(|entry: Entry| (entry.0, finish.cell(entry.1)));
    let keep = |entry: Entry| valued(entry.1, finish.band_count as int);
    lemma_finished_cell(finish, cells[k]);
    assert(shows_cell(finish, cells[k], finished[k]));
    if !finish.omits_something() {
        assert(finish.cells(cells)[k] == finished[k]);
    } else if valued(finished[k].1, finish.band_count as int) {
        assert(keep(finished[k]));
        crate::vectors::lemma_kept_has(finished, keep, k);
        let i = choose|i: int|
            0 <= i < finished.filter(keep).len() && #[trigger] finished.filter(keep)[i]
                == finished[k];
        assert(finish.cells(cells)[i] == finished[k]);
    } else {
        assert forall|b: int| 0 <= b < finish.band_count implies is_shown_as(
            finish,
            b,
            #[trigger] cells[k].1.values[b],
            cells[k].1.counts[b],
            None,
        ) by {
            assert(finished[k].1.values[b] is None);
        }
    }
}

/// Finishing puts no cell into a place twice.
pub proof fn law_shown_cells_stand_apart(finish: Finish, cells: Seq<Entry>, i: int, j: int)
    requires
        forall|k: int, l: int|
            0 <= k < l < cells.len() ==> (#[trigger] cells[k]).0 != (#[trigger] cells[l]).0,
        0 <= i < j < finish.cells(cells).len(),
    ensures
        finish.cells(cells)[i].0 != finish.cells(cells)[j].0,
{
    let finished = cells.map_values(|entry: Entry| (entry.0, finish.cell(entry.1)));
    let keep = |entry: Entry| valued(entry.1, finish.band_count as int);
    assert forall|k: int, l: int| 0 <= k < l < finished.len() implies (#[trigger] finished[k]).0 != (
    #[trigger] finished[l]).0 by {
        assert(cells[k].0 != cells[l].0);
    }
    if finish.omits_something() {
        crate::vectors::lemma_kept_in_order(finished, keep, i, j);
    }
}

} // verus!
