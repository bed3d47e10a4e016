//! The polygons and attributes of a layer.
use crate::model::CompactOptI32;
use crate::tile::points::{entries, plain, point_at, point_count, Entry, Points};
use i_overlay::i_float::int::point::IntPoint;
use std::collections::HashMap;
use vstd::prelude::*;

verus! {

/// The width of a tile in pixels.
pub const EXTENT: i32 = 4096;

/// The width of the margin round a tile in pixels.
pub const BUFFER: i32 = 32;

/// A corner of a polygon.
pub type Corner = (i32, i32);

/// The edge of a polygon, corner by corner.
pub type Ring = Vec<(i32, i32)>;

// ---------------------------------------------------------------------------
// Cells in pixels
// ---------------------------------------------------------------------------

/// Where a cell lies in a tile, in pixels, however far outside.
#[derive(Clone, Copy, Debug, PartialEq, Eq)]
pub struct PixelBox {
    pub x1: i32,
    pub x2: i32,
    pub y1: i32,
    pub y2: i32,
    /// The left and right side of the cell one turn further, where it lies across the edge of the
    /// world.
    pub wrapped: Option<(i32, i32)>,
}

/// The place within the tile and its margin that is nearest to a place.
pub open spec fn clamped(place: int) -> int {
    if place < -BUFFER {
        -BUFFER as int
    } else if place > EXTENT + BUFFER {
        EXTENT + BUFFER
    } else {
        place
    }
}

/// The corners of a rectangle.
pub open spec fn rectangle(x1: int, x2: int, y1: int, y2: int) -> Seq<Corner> {
    seq![
        (x1 as i32, y1 as i32),
        (x2 as i32, y1 as i32),
        (x2 as i32, y2 as i32),
        (x1 as i32, y2 as i32),
    ]
}

/// The rectangle between two sides, where it has an area.
pub open spec fn rectangle_between(x1: int, x2: int, y1: int, y2: int) -> Seq<Seq<Corner>> {
    if clamped(x1) < clamped(x2) && clamped(y1) < clamped(y2) {
        seq![rectangle(clamped(x1), clamped(x2), clamped(y1), clamped(y2))]
    } else {
        Seq::empty()
    }
}

/// What a cell covers of the tile: its rectangle and, where it lies across the edge of the world,
/// the rectangle one turn further.
pub open spec fn rectangles(cell: PixelBox) -> Seq<Seq<Corner>> {
    let here = rectangle_between(cell.x1 as int, cell.x2 as int, cell.y1 as int, cell.y2 as int);
    match cell.wrapped {
        None => here,
        Some((x1, x2)) => here + rectangle_between(
            x1 as int,
            x2 as int,
            cell.y1 as int,
            cell.y2 as int,
        ),
    }
}

/// The values of a cell's bands.
pub type Values = Seq<Option<int>>;

/// What the cells with certain values cover, among the first `n` cells.
pub open spec fn covered(
    cells: Seq<Entry>,
    boxes: Seq<PixelBox>,
    values: Values,
    n: nat,
) -> Seq<Seq<Corner>>
    decreases n,
{
    if n == 0 {
        Seq::empty()
    } else {
        let before = covered(cells, boxes, values, (n - 1) as nat);
        if cells[n - 1].1.values == values {
            before + rectangles(boxes[n - 1])
        } else {
            before
        }
    }
}

/// The cells that have the same values in all bands.
#[derive(Debug)]
pub struct ValueGroup {
    pub values: [CompactOptI32; 4],
    pub rings: Vec<Ring>,
}

/// The values as integers.
pub open spec fn plain_values(values: [CompactOptI32; 4]) -> Values {
    Seq::new(4, |b: int| plain(values@[b]))
}

/// The corners of each ring.
pub open spec fn ring_views(rings: Seq<Ring>) -> Seq<Seq<Corner>> {
    rings.map_values(|ring: Ring| ring@)
}

/// The groups are those of the first `n` cells: no two have the same values, each covers what the
/// cells with its values cover, none is empty, and nothing that a cell covers is missing.
pub open spec fn are_groups(
    groups: Seq<ValueGroup>,
    cells: Seq<Entry>,
    boxes: Seq<PixelBox>,
    n: nat,
) -> bool {
    &&& forall|g: int, h: int|
        0 <= g < h < groups.len() ==> plain_values((#[trigger] groups[g]).values) != plain_values(
            (#[trigger] groups[h]).values,
        )
    &&& forall|g: int|
        0 <= g < groups.len() ==> {
            &&& ring_views((#[trigger] groups[g]).rings@) == covered(
                cells,
                boxes,
                plain_values(groups[g].values),
                n,
            )
            &&& groups[g].rings@.len() > 0
        }
    &&& forall|values: Values|
        (#[trigger] covered(cells, boxes, values, n)).len() > 0 ==> has_group(groups, values)
}

/// Some group has the values.
pub open spec fn has_group(groups: Seq<ValueGroup>, values: Values) -> bool {
    exists|g: int| 0 <= g < groups.len() && plain_values((#[trigger] groups[g]).values) == values
}

/// The nearest place within the tile and its margin.
fn clamp(place: i32) -> (nearest: i32)
    ensures
        nearest == clamped(place as int),
        -BUFFER <= nearest <= EXTENT + BUFFER,
{
    if place < -BUFFER {
        -BUFFER
    } else if place > EXTENT + BUFFER {
        EXTENT + BUFFER
    } else {
        place
    }
}

/// Appends the rectangle between two sides, where it has an area.
fn push_rectangle(rings: &mut Vec<Ring>, x1: i32, x2: i32, y1: i32, y2: i32)
    ensures
        ring_views(final(rings)@) == ring_views(old(rings)@) + rectangle_between(
            x1 as int,
            x2 as int,
            y1 as int,
            y2 as int,
        ),
{
    let (left, right) = (clamp(x1), clamp(x2));
    let (top, bottom) = (clamp(y1), clamp(y2));
    if left < right && top < bottom {
        let mut ring: Ring = Vec::new();
        ring.push((left, top));
        ring.push((right, top));
        ring.push((right, bottom));
        ring.push((left, bottom));
        proof {
            assert(ring@ =~= rectangle(left as int, right as int, top as int, bottom as int));
        }
        rings.push(ring);
    }
    proof {
        assert(ring_views(rings@) =~= ring_views(old(rings)@) + rectangle_between(
            x1 as int,
            x2 as int,
            y1 as int,
            y2 as int,
        ));
    }
}

/// What a cell covers of the tile.
fn cell_rings(cell: &PixelBox) -> (rings: Vec<Ring>)
    ensures
        ring_views(rings@) == rectangles(*cell),
{
    let mut rings: Vec<Ring> = Vec::new();
    proof {
        assert(ring_views(rings@) =~= Seq::empty());
    }
    push_rectangle(&mut rings, cell.x1, cell.x2, cell.y1, cell.y2);
    proof {
        let here = rectangle_between(
            cell.x1 as int,
            cell.x2 as int,
            cell.y1 as int,
            cell.y2 as int,
        );
        assert(Seq::<Seq<Corner>>::empty() + here =~= here);
    }
    if let Some((x1, x2)) = cell.wrapped {
        push_rectangle(&mut rings, x1, x2, cell.y1, cell.y2);
    }
    rings
}

/// A number that stands for four values.
pub open spec fn key_of(values: [CompactOptI32; 4]) -> int {
    let unit = 0x1_0000_0000int;
    let low = i32::MIN as int;
    (((values@[0].0 - low) * unit + (values@[1].0 - low)) * unit + (values@[2].0 - low)) * unit + (
    values@[3].0 - low)
}

proof fn lemma_keys_differ(a: [CompactOptI32; 4], b: [CompactOptI32; 4])
    ensures
        key_of(a) == key_of(b) <==> plain_values(a) == plain_values(b),
{
    if key_of(a) == key_of(b) {
        assert(a@[0].0 == b@[0].0 && a@[1].0 == b@[1].0 && a@[2].0 == b@[2].0 && a@[3].0 == b@[3].0);
        assert(plain_values(a) =~= plain_values(b));
    }
    if plain_values(a) == plain_values(b) {
        assert forall|k: int| 0 <= k < 4 implies #[trigger] a@[k].0 == b@[k].0 by {
            assert(plain_values(a)[k] == plain_values(b)[k]);
        }
        assert(a@[0].0 == b@[0].0 && a@[1].0 == b@[1].0 && a@[2].0 == b@[2].0 && a@[3].0 == b@[3].0);
    }
}

/// The number that stands for four values.
fn value_key(values: &[CompactOptI32; 4]) -> (key: u128)
    ensures
        key == key_of(*values),
{
    let unit: u128 = 0x1_0000_0000;
    let low: i64 = -0x8000_0000;
    let a: u128 = (values[0].0 as i64 - low) as u128;
    let b: u128 = (values[1].0 as i64 - low) as u128;
    let c: u128 = (values[2].0 as i64 - low) as u128;
    let d: u128 = (values[3].0 as i64 - low) as u128;
    ((a * unit + b) * unit + c) * unit + d
}

/// What the index over the groups says: under the key of values stands the place of their group.
spec fn indexed(index: Map<u128, usize>, groups: Seq<ValueGroup>) -> bool {
    &&& forall|g: int|
        0 <= g < groups.len() ==> index.contains_key(key_of((#[trigger] groups[g]).values) as u128)
            && index[key_of(groups[g].values) as u128] == g
    &&& forall|key: u128|
        #[trigger] index.contains_key(key) ==> index[key] < groups.len()
            && key_of(groups[index[key] as int].values) == key
}

/// What is covered for some values is covered by a cell that has them.
pub proof fn lemma_covered_by_a_cell(
    cells: Seq<Entry>,
    boxes: Seq<PixelBox>,
    values: Values,
    n: nat,
)
    requires
        covered(cells, boxes, values, n).len() > 0,
    ensures
        exists|i: int| 0 <= i < n && (#[trigger] cells[i]).1.values == values,
    decreases n,
{
    if n > 0 && cells[n - 1].1.values != values {
        lemma_covered_by_a_cell(cells, boxes, values, (n - 1) as nat);
    }
}

proof fn lemma_next_cell(cells: Seq<Entry>, boxes: Seq<PixelBox>, values: Values, n: nat)
    requires
        n < cells.len(),
    ensures
        covered(cells, boxes, values, n + 1) == if cells[n as int].1.values == values {
            covered(cells, boxes, values, n) + rectangles(boxes[n as int])
        } else {
            covered(cells, boxes, values, n)
        },
{
}

/// Makes the polygons of the cells and groups them by the cells' values.
///
/// `boxes` says where each cell lies in the tile.
pub fn make_polygons_grouped_by_value(points: &Points, boxes: &Vec<PixelBox>) -> (groups: Vec<
    ValueGroup,
>)
    requires
        boxes@.len() == entries(*points).len(),
    ensures
        are_groups(groups@, entries(*points), boxes@, boxes@.len()),
        forall|g: int|
            0 <= g < groups@.len() ==> in_overlay_range(ring_views((#[trigger] groups@[g]).rings@)),
{
    broadcast use vstd::std_specs::hash::group_hash_axioms;

    let ghost cells = entries(*points);
    let mut groups: Vec<ValueGroup> = Vec::new();
    let mut index: HashMap<u128, usize> = HashMap::new();
    let count = point_count(points);
    for i in 0..count
        invariant
            count == cells.len(),
            boxes@.len() == cells.len(),
            cells == entries(*points),
            are_groups(groups@, cells, boxes@, i as nat),
            indexed(index@, groups@),
    {
        broadcast use vstd::std_specs::hash::group_hash_axioms;

        let (_, point) = point_at(points, i);
        let mut rings = cell_rings(&boxes[i]);
        let ghost values = plain_values(point.values);
        let ghost before = groups@;
        proof {
            assert(cells[i as int].1 == point@);
            assert(cells[i as int].1.values =~= values);
        }
        if rings.len() > 0 {
            let key = value_key(&point.values);
            let place: Option<usize> = match index.get(&key) {
                Some(place) => Some(*place),
                None => None,
            };
            match place {
                Some(place) => {
                    let ghost added = ring_views(rings@);
                    proof {
                        lemma_keys_differ(before[place as int].values, point.values);
                    }
                    groups[place].rings.append(&mut rings);
                    proof {
                        assert(groups@[place as int].values == before[place as int].values);
                        assert(ring_views(groups@[place as int].rings@) =~= ring_views(
                            before[place as int].rings@,
                        ) + added);
                        assert(indexed(index@, groups@)) by {
                            assert forall|g: int| 0 <= g < groups@.len() implies (
                            #[trigger] groups@[g]).values == before[g].values by {}
                        }
                        lemma_grown(before, groups@, cells, boxes@, i as nat, place as int);
                    }
                },
                None => {
                    proof {
                        assert(!has_group(before, values)) by {
                            if has_group(before, values) {
                                let g = choose|g: int|
                                    0 <= g < before.len() && plain_values(
                                        (#[trigger] before[g]).values,
                                    ) == values;
                                lemma_keys_differ(before[g].values, point.values);
                            }
                        }
                    }
                    let place: usize = groups.len();
                    groups.push(ValueGroup { values: point.values, rings });
                    index.insert(key, place);
                    proof {
                        assert(indexed(index@, groups@)) by {
                            assert forall|g: int| 0 <= g < groups@.len() implies index@.contains_key(
                                key_of((#[trigger] groups@[g]).values) as u128,
                            ) && index@[key_of(groups@[g].values) as u128] == g by {
                                if g < before.len() {
                                    assert(groups@[g] == before[g]);
                                    assert(plain_values(before[g].values) != values);
                                    lemma_keys_differ(before[g].values, point.values);
                                    let other = value_key_bound(before[g].values);
                                }
                            }
                        }
                        lemma_added(before, groups@, cells, boxes@, i as nat);
                    }
                },
            }
        } else {
            proof {
                lemma_unchanged(before, cells, boxes@, i as nat);
            }
        }
    }
    proof {
        assert forall|g: int| 0 <= g < groups@.len() implies in_overlay_range(
            ring_views((#[trigger] groups@[g]).rings@),
        ) by {
            lemma_covered_in_range(cells, boxes@, plain_values(groups@[g].values), boxes@.len());
        }
    }
    groups
}

/// What cells cover lies in the tile and its margin.
proof fn lemma_covered_in_range(
    cells: Seq<Entry>,
    boxes: Seq<PixelBox>,
    values: Values,
    n: nat,
)
    ensures
        in_overlay_range(covered(cells, boxes, values, n)),
    decreases n,
{
    if n > 0 {
        lemma_covered_in_range(cells, boxes, values, (n - 1) as nat);
        let before = covered(cells, boxes, values, (n - 1) as nat);
        let cell = boxes[n - 1];
        let now = rectangles(cell);
        assert(in_overlay_range(before + now)) by {
            assert forall|r: int, c: int|
                0 <= r < (before + now).len() && 0 <= c < (before + now)[r].len() implies {
                &&& -0x4000_0000 <= (#[trigger] (before + now)[r][c]).0 < 0x4000_0000
                &&& -0x4000_0000 <= (before + now)[r][c].1 < 0x4000_0000
            } by {
                if r < before.len() {
                    assert((before + now)[r] == before[r]);
                } else {
                    assert((before + now)[r] == now[r - before.len()]);
                }
            }
        }
    }
}

proof fn value_key_bound(values: [CompactOptI32; 4]) -> (key: int)
    ensures
        key == key_of(values),
        0 <= key <= u128::MAX,
{
    key_of(values)
}

/// A cell that covers nothing leaves the groups as they are.
proof fn lemma_unchanged(
    groups: Seq<ValueGroup>,
    cells: Seq<Entry>,
    boxes: Seq<PixelBox>,
    n: nat,
)
    requires
        n < cells.len(),
        are_groups(groups, cells, boxes, n),
        rectangles(boxes[n as int]).len() == 0,
    ensures
        are_groups(groups, cells, boxes, n + 1),
{
    assert forall|values: Values| #[trigger]
        covered(cells, boxes, values, n + 1) == covered(cells, boxes, values, n) by {
        lemma_next_cell(cells, boxes, values, n);
        assert(covered(cells, boxes, values, n) + rectangles(boxes[n as int]) =~= covered(
            cells,
            boxes,
            values,
            n,
        ));
    }
    assert forall|g: int| 0 <= g < groups.len() implies ring_views((#[trigger] groups[g]).rings@)
        == covered(cells, boxes, plain_values(groups[g].values), n + 1) && groups[g].rings@.len()
        > 0 by {}
}

/// A cell whose values have a group goes into it.
proof fn lemma_grown(
    before: Seq<ValueGroup>,
    after: Seq<ValueGroup>,
    cells: Seq<Entry>,
    boxes: Seq<PixelBox>,
    n: nat,
    place: int,
)
    requires
        n < cells.len(),
        are_groups(before, cells, boxes, n),
        after.len() == before.len(),
        0 <= place < before.len(),
        plain_values(before[place].values) == cells[n as int].1.values,
        after[place].values == before[place].values,
        ring_views(after[place].rings@) == ring_views(before[place].rings@) + rectangles(
            boxes[n as int],
        ),
        forall|g: int| 0 <= g < before.len() && g != place ==> after[g] == before[g],
    ensures
        are_groups(after, cells, boxes, n + 1),
{
    let values = cells[n as int].1.values;
    assert forall|g: int| 0 <= g < after.len() implies (#[trigger] after[g]).values
        == before[g].values by {}
    assert forall|g: int, h: int| 0 <= g < h < after.len() implies plain_values(
        (#[trigger] after[g]).values,
    ) != plain_values((#[trigger] after[h]).values) by {
        assert(after[g].values == before[g].values && after[h].values == before[h].values);
        assert(plain_values(before[g].values) != plain_values(before[h].values));
    }
    assert forall|g: int| 0 <= g < after.len() implies ring_views((#[trigger] after[g]).rings@)
        == covered(cells, boxes, plain_values(after[g].values), n + 1) && after[g].rings@.len() > 0 by {
        lemma_next_cell(cells, boxes, plain_values(after[g].values), n);
        assert(before[g].rings@.len() > 0);
        if g == place {
            assert(ring_views(after[g].rings@).len() == after[g].rings@.len());
            assert(ring_views(before[g].rings@).len() == before[g].rings@.len());
        } else {
            assert(plain_values(before[g].values) != values) by {
                if g < place {
                    assert(plain_values(before[g].values) != plain_values(before[place].values));
                } else {
                    assert(plain_values(before[place].values) != plain_values(before[g].values));
                }
            }
        }
    }
    assert forall|v: Values| (#[trigger] covered(cells, boxes, v, n + 1)).len() > 0 implies has_group(
        after,
        v,
    ) by {
        lemma_next_cell(cells, boxes, v, n);
        if v == values {
            assert(plain_values(after[place].values) == v);
        } else {
            assert(has_group(before, v));
            let g = choose|g: int|
                0 <= g < before.len() && plain_values((#[trigger] before[g]).values) == v;
            assert(plain_values(after[g].values) == v);
        }
    }
}

/// A cell whose values have no group gets one.
proof fn lemma_added(
    before: Seq<ValueGroup>,
    after: Seq<ValueGroup>,
    cells: Seq<Entry>,
    boxes: Seq<PixelBox>,
    n: nat,
)
    requires
        n < cells.len(),
        are_groups(before, cells, boxes, n),
        after.len() == before.len() + 1,
        forall|g: int| 0 <= g < before.len() ==> after[g] == before[g],
        plain_values(after.last().values) == cells[n as int].1.values,
        ring_views(after.last().rings@) == rectangles(boxes[n as int]),
        after.last().rings@.len() > 0,
        !has_group(before, cells[n as int].1.values),
    ensures
        are_groups(after, cells, boxes, n + 1),
{
    let values = cells[n as int].1.values;
    assert(covered(cells, boxes, values, n).len() == 0);
    assert forall|g: int, h: int| 0 <= g < h < after.len() implies plain_values(
        (#[trigger] after[g]).values,
    ) != plain_values((#[trigger] after[h]).values) by {
        assert(after[g] == before[g]);
        if h < before.len() {
            assert(after[h] == before[h]);
            assert(plain_values(before[g].values) != plain_values(before[h].values));
        } else {
            assert(plain_values(before[g].values) != values);
        }
    }
    assert forall|g: int| 0 <= g < after.len() implies ring_views((#[trigger] after[g]).rings@)
        == covered(cells, boxes, plain_values(after[g].values), n + 1) && after[g].rings@.len() > 0 by {
        lemma_next_cell(cells, boxes, plain_values(after[g].values), n);
        if g < before.len() {
            assert(after[g] == before[g]);
            assert(plain_values(before[g].values) != values);
            assert(before[g].rings@.len() > 0);
        } else {
            assert(covered(cells, boxes, values, n) + rectangles(boxes[n as int])
                =~= rectangles(boxes[n as int]));
        }
    }
    assert forall|v: Values| (#[trigger] covered(cells, boxes, v, n + 1)).len() > 0 implies has_group(
        after,
        v,
    ) by {
        lemma_next_cell(cells, boxes, v, n);
        if v == values {
            assert(plain_values(after[before.len() as int].values) == v);
        } else {
            assert(has_group(before, v));
            let g = choose|g: int|
                0 <= g < before.len() && plain_values((#[trigger] before[g]).values) == v;
            assert(after[g] == before[g]);
            assert(plain_values(after[g].values) == v);
        }
    }
}

// ---------------------------------------------------------------------------
// Shapes
// ---------------------------------------------------------------------------

/// The corners of each ring of each shape.
pub open spec fn shape_views(shapes: Seq<Vec<Ring>>) -> Seq<Seq<Seq<Corner>>> {
    shapes.map_values(|rings: Vec<Ring>| ring_views(rings@))
}

/// The shapes that `i_overlay` makes of rings: what lies within any of them, each shape with its
/// outer edge first and counter-clockwise.
pub uninterp spec fn united(rings: Seq<Seq<(i32, i32)>>) -> Seq<Seq<Seq<(i32, i32)>>>;

/// Every corner lies within the range that `i_overlay` gives for 32-bit coordinates.
pub open spec fn in_overlay_range(rings: Seq<Seq<Corner>>) -> bool {
    forall|r: int, c: int|
        0 <= r < rings.len() && 0 <= c < rings[r].len() ==> {
            &&& -0x4000_0000 <= (#[trigger] rings[r][c]).0 < 0x4000_0000
            &&& -0x4000_0000 <= rings[r][c].1 < 0x4000_0000
        }
}

/// Calls `i_overlay::core::overlay::Overlay::with_contours_custom` on the rings as the subject,
/// then `overlay` with the rule `Subject` and the filling `Positive`. By default outer edges come
/// out counter-clockwise. The shapes are named, not described: where the edges of a union run
/// takes a geometry of its own to say.
#[verifier::external_body]
pub(crate) fn union_of(rings: &Vec<Ring>) -> (shapes: Vec<Vec<Ring>>)
    requires
        in_overlay_range(ring_views(rings@)),
    ensures
        shape_views(shapes@) == united(ring_views(rings@)),
{
    let point = |c: &Corner| IntPoint { x: c.0, y: c.1 };
    let contours: Vec<Vec<_>> = rings.iter().map(|ring| ring.iter().map(point).collect()).collect();
    let rule = i_overlay::core::overlay_rule::OverlayRule::Subject;
    let filling = i_overlay::core::fill_rule::FillRule::Positive;
    let (options, solver) = Default::default();
    #[allow(deprecated)]
    i_overlay::core::overlay::Overlay::with_contours_custom(&contours, &[], options, solver)
        .overlay(rule, filling)
        .iter()
        .map(|s| s.iter().map(|r| r.iter().map(|p| (p.x, p.y)).collect()).collect())
        .collect()
}

/// The zigzag form of a number: 0, -1, 1, -2, 2 and so on become 0, 1, 2, 3, 4 and so on.
pub open spec fn zigzag(n: int) -> u32 {
    if n >= 0 {
        (2 * n) as u32
    } else {
        (-2 * n - 1) as u32
    }
}

/// The lines through the first `n` corners of a ring: the steps from corner to corner, without
/// those that lead nowhere.
pub open spec fn line_words(ring: Seq<Corner>, n: nat) -> Seq<u32>
    decreases n,
{
    if n <= 1 {
        Seq::empty()
    } else {
        let before = line_words(ring, (n - 1) as nat);
        let dx = ring[n - 1].0 - ring[n - 2].0;
        let dy = ring[n - 1].1 - ring[n - 2].1;
        if dx == 0 && dy == 0 {
            before
        } else {
            before + seq![zigzag(dx), zigzag(dy)]
        }
    }
}

/// The commands that draw a ring with the pen at a corner: one move, the lines (at least one), and
/// the close.
pub open spec fn ring_words(pen: Corner, ring: Seq<Corner>) -> Seq<u32> {
    if ring.len() == 0 {
        Seq::empty()
    } else {
        let lines = line_words(ring, ring.len());
        let drawn = if lines.len() == 0 {
            seq![0u32, 0u32]
        } else {
            lines
        };
        seq![
            9u32,
            zigzag(ring[0].0 - pen.0),
            zigzag(ring[0].1 - pen.1),
            (2 + 8 * (drawn.len() / 2)) as u32,
        ] + drawn + seq![15u32]
    }
}

/// Where the pen is after a ring.
pub open spec fn pen_after(pen: Corner, ring: Seq<Corner>) -> Corner {
    if ring.len() == 0 {
        pen
    } else {
        ring.last()
    }
}

/// Commands drawn so far, and where the pen is.
pub struct Drawing {
    pub words: Seq<u32>,
    pub pen: Corner,
}

/// The drawing with the first `n` rings.
pub open spec fn with_rings(drawing: Drawing, rings: Seq<Seq<Corner>>, n: nat) -> Drawing
    decreases n,
{
    if n == 0 {
        drawing
    } else {
        let before = with_rings(drawing, rings, (n - 1) as nat);
        Drawing {
            words: before.words + ring_words(before.pen, rings[n - 1]),
            pen: pen_after(before.pen, rings[n - 1]),
        }
    }
}

/// The drawing with the rings of the first `n` shapes.
pub open spec fn with_shapes(drawing: Drawing, shapes: Seq<Seq<Seq<Corner>>>, n: nat) -> Drawing
    decreases n,
{
    if n == 0 {
        drawing
    } else {
        let before = with_shapes(drawing, shapes, (n - 1) as nat);
        with_rings(before, shapes[n - 1], shapes[n - 1].len())
    }
}

/// The commands that draw shapes.
pub open spec fn shape_words(shapes: Seq<Seq<Seq<Corner>>>) -> Seq<u32> {
    with_shapes(Drawing { words: Seq::empty(), pen: (0i32, 0i32) }, shapes, shapes.len()).words
}

/// Steps between corners of the ring, and their number, can be written as commands.
pub open spec fn drawable_ring(ring: Seq<Corner>) -> bool {
    &&& ring.len() < 0x2000_0000
    &&& forall|c: int|
        0 <= c < ring.len() ==> {
            &&& -0x4000_0000 <= (#[trigger] ring[c]).0 < 0x4000_0000
            &&& -0x4000_0000 <= ring[c].1 < 0x4000_0000
        }
}

/// All rings can be drawn.
pub open spec fn drawable(shapes: Seq<Seq<Seq<Corner>>>) -> bool {
    forall|s: int, r: int|
        0 <= s < shapes.len() && 0 <= r < shapes[s].len() ==> drawable_ring(
            #[trigger] shapes[s][r],
        )
}

/// `tinymvt::geometry::GeometryEncoder`, which is opaque here.
#[verifier::external_type_specification]
#[verifier::external_body]
pub struct ExGeometryEncoder(tinymvt::geometry::GeometryEncoder);

/// The commands that a `tinymvt::geometry::GeometryEncoder` holds.
pub uninterp spec fn encoder_words(encoder: tinymvt::geometry::GeometryEncoder) -> Seq<u32>;

/// Where the pen of a `tinymvt::geometry::GeometryEncoder` is.
pub uninterp spec fn encoder_pen(encoder: tinymvt::geometry::GeometryEncoder) -> (i32, i32);

/// Calls `tinymvt::geometry::GeometryEncoder::new`: no commands, and the pen at the origin.
#[verifier::external_body]
fn new_geometry() -> (encoder: tinymvt::geometry::GeometryEncoder)
    ensures
        encoder_words(encoder) == Seq::<u32>::empty(),
        encoder_pen(encoder) == (0i32, 0i32),
{
    tinymvt::geometry::GeometryEncoder::new()
}

/// Calls `tinymvt::geometry::GeometryEncoder::add_ring`: appends the commands that draw a ring,
/// and leaves the pen at its last corner. The steps from corner to corner, and the step from the
/// pen to the first, have to be 32-bit integers.
#[verifier::external_body]
fn draw_ring(encoder: &mut tinymvt::geometry::GeometryEncoder, ring: &Ring)
    requires
        drawable_ring(ring@),
        drawable_ring(seq![encoder_pen(*old(encoder))]),
    ensures
        encoder_words(*final(encoder)) == encoder_words(*old(encoder)) + ring_words(
            encoder_pen(*old(encoder)),
            ring@,
        ),
        encoder_pen(*final(encoder)) == pen_after(encoder_pen(*old(encoder)), ring@),
{
    encoder.add_ring(ring.iter().map(|c| [c.0, c.1]));
}

/// Calls `tinymvt::geometry::GeometryEncoder::into_vec`: the commands.
#[verifier::external_body]
fn drawn_geometry(encoder: tinymvt::geometry::GeometryEncoder) -> (words: Vec<u32>)
    ensures
        words@ == encoder_words(encoder),
{
    encoder.into_vec()
}

/// Whether a ring can be drawn.
fn is_drawable_ring(ring: &Ring) -> (answer: bool)
    ensures
        answer == drawable_ring(ring@),
{
    if ring.len() >= 0x2000_0000 {
        return false;
    }
    for c in 0..ring.len()
        invariant
            forall|k: int|
                0 <= k < c ==> {
                    &&& -0x4000_0000 <= (#[trigger] ring@[k]).0 < 0x4000_0000
                    &&& -0x4000_0000 <= ring@[k].1 < 0x4000_0000
                },
    {
        let (x, y) = ring[c];
        if x < -0x4000_0000 || x >= 0x4000_0000 || y < -0x4000_0000 || y >= 0x4000_0000 {
            proof {
                assert(ring@[c as int] == (x, y));
            }
            return false;
        }
    }
    true
}

/// The commands that draw shapes, unless they cannot be drawn.
pub fn encode_shapes(shapes: &Vec<Vec<Ring>>) -> (result: Option<Vec<u32>>)
    ensures
        match result {
            Some(words) => drawable(shape_views(shapes@)) && words@ == shape_words(
                shape_views(shapes@),
            ),
            None => !drawable(shape_views(shapes@)),
        },
{
    let ghost all = shape_views(shapes@);
    let ghost start = Drawing { words: Seq::empty(), pen: (0i32, 0i32) };
    let mut encoder = new_geometry();
    for s in 0..shapes.len()
        invariant
            all == shape_views(shapes@),
            start == (Drawing { words: Seq::empty(), pen: (0i32, 0i32) }),
            drawable_ring(seq![encoder_pen(encoder)]),
            with_shapes(start, all, s as nat) == (Drawing {
                words: encoder_words(encoder),
                pen: encoder_pen(encoder),
            }),
            forall|k: int, r: int|
                0 <= k < s && 0 <= r < all[k].len() ==> drawable_ring(#[trigger] all[k][r]),
    {
        let rings = &shapes[s];
        let ghost before = with_shapes(start, all, s as nat);
        proof {
            assert(all[s as int] == ring_views(rings@));
        }
        for r in 0..rings.len()
            invariant
                0 <= s < shapes@.len(),
                all == shape_views(shapes@),
                all[s as int] == ring_views(rings@),
                drawable_ring(seq![encoder_pen(encoder)]),
                with_rings(before, all[s as int], r as nat) == (Drawing {
                    words: encoder_words(encoder),
                    pen: encoder_pen(encoder),
                }),
                forall|k: int| 0 <= k < r ==> drawable_ring(#[trigger] all[s as int][k]),
        {
            proof {
                assert(all[s as int][r as int] == rings@[r as int]@);
            }
            if !is_drawable_ring(&rings[r]) {
                proof {
                    assert(!drawable_ring(all[s as int][r as int]));
                }
                return None;
            }
            let ghost pen = encoder_pen(encoder);
            draw_ring(&mut encoder, &rings[r]);
            proof {
                let now = encoder_pen(encoder);
                assert(drawable_ring(seq![now])) by {
                    assert(seq![pen][0] == pen);
                    assert forall|c: int| 0 <= c < seq![now].len() implies {
                        &&& -0x4000_0000 <= (#[trigger] seq![now][c]).0 < 0x4000_0000
                        &&& -0x4000_0000 <= seq![now][c].1 < 0x4000_0000
                    } by {
                        if rings@[r as int]@.len() > 0 {
                            assert(rings@[r as int]@[rings@[r as int]@.len() - 1] == now);
                        }
                    }
                }
            }
        }
    }
    Some(drawn_geometry(encoder))
}

// ---------------------------------------------------------------------------
// Where cells are drawn
// ---------------------------------------------------------------------------

/// The ring is a rectangle within the tile and its margin: from its first corner to the right, down
/// and back to the left.
pub open spec fn is_rectangle(ring: Seq<Corner>) -> bool {
    &&& ring.len() == 4
    &&& -32 <= ring[0].0 < ring[2].0 <= 4128
    &&& -32 <= ring[0].1 < ring[2].1 <= 4128
    &&& ring[1] == (ring[2].0, ring[0].1)
    &&& ring[3] == (ring[0].0, ring[2].1)
}

/// The pixel lies within the rectangle.
pub open spec fn holds_pixel(ring: Seq<Corner>, x: int, y: int) -> bool {
    ring[0].0 <= x < ring[2].0 && ring[0].1 <= y < ring[2].1
}

/// Some ring holds the pixel.
pub open spec fn some_holds(rings: Seq<Seq<Corner>>, x: int, y: int) -> bool {
    exists|r: int| 0 <= r < rings.len() && holds_pixel(#[trigger] rings[r], x, y)
}

/// The pixel lies on the cell, at its place or one turn further.
pub open spec fn lies_on(cell: PixelBox, x: int, y: int) -> bool {
    &&& cell.y1 <= y < cell.y2
    &&& cell.x1 <= x < cell.x2 || (cell.wrapped matches Some((x1, x2)) && x1 <= x < x2)
}

/// The pixel lies on one of the first `n` cells, and that cell has the values.
pub open spec fn lies_on_some(
    cells: Seq<Entry>,
    boxes: Seq<PixelBox>,
    values: Values,
    n: nat,
    x: int,
    y: int,
) -> bool {
    exists|i: int|
        0 <= i < n && (#[trigger] cells[i]).1.values == values && lies_on(boxes[i], x, y)
}

proof fn lemma_rectangle_between(x1: int, x2: int, y1: int, y2: int, x: int, y: int)
    requires
        -BUFFER <= x < EXTENT + BUFFER,
        -BUFFER <= y < EXTENT + BUFFER,
    ensures
        some_holds(rectangle_between(x1, x2, y1, y2), x, y) <==> x1 <= x < x2 && y1 <= y < y2,
        forall|r: int|
            0 <= r < rectangle_between(x1, x2, y1, y2).len() ==> is_rectangle(
                #[trigger] rectangle_between(x1, x2, y1, y2)[r],
            ),
{
    let rings = rectangle_between(x1, x2, y1, y2);
    if x1 <= x < x2 && y1 <= y < y2 {
        assert(holds_pixel(rings[0], x, y));
    }
}

proof fn lemma_joined_hold(a: Seq<Seq<Corner>>, b: Seq<Seq<Corner>>, x: int, y: int)
    ensures
        some_holds(a + b, x, y) <==> some_holds(a, x, y) || some_holds(b, x, y),
{
    if some_holds(a, x, y) {
        let r = choose|r: int| 0 <= r < a.len() && holds_pixel(#[trigger] a[r], x, y);
        assert(holds_pixel((a + b)[r], x, y));
    }
    if some_holds(b, x, y) {
        let r = choose|r: int| 0 <= r < b.len() && holds_pixel(#[trigger] b[r], x, y);
        assert(holds_pixel((a + b)[a.len() + r], x, y));
    }
    if some_holds(a + b, x, y) {
        let r = choose|r: int| 0 <= r < (a + b).len() && holds_pixel(#[trigger] (a + b)[r], x, y);
        if r < a.len() {
            assert(holds_pixel(a[r], x, y));
        } else {
            assert(holds_pixel(b[r - a.len()], x, y));
        }
    }
}

proof fn lemma_covered_pixels(
    cells: Seq<Entry>,
    boxes: Seq<PixelBox>,
    values: Values,
    n: nat,
    x: int,
    y: int,
)
    requires
        -BUFFER <= x < EXTENT + BUFFER,
        -BUFFER <= y < EXTENT + BUFFER,
    ensures
        some_holds(covered(cells, boxes, values, n), x, y) <==> lies_on_some(
            cells,
            boxes,
            values,
            n,
            x,
            y,
        ),
        forall|r: int|
            0 <= r < covered(cells, boxes, values, n).len() ==> is_rectangle(
                #[trigger] covered(cells, boxes, values, n)[r],
            ),
    decreases n,
{
    if n > 0 {
        let m = (n - 1) as nat;
        lemma_covered_pixels(cells, boxes, values, m, x, y);
        let before = covered(cells, boxes, values, m);
        let cell = boxes[n - 1];
        let (top, bottom) = (cell.y1 as int, cell.y2 as int);
        let here = rectangle_between(cell.x1 as int, cell.x2 as int, top, bottom);
        lemma_rectangle_between(cell.x1 as int, cell.x2 as int, top, bottom, x, y);
        if let Some((x1, x2)) = cell.wrapped {
            let there = rectangle_between(x1 as int, x2 as int, top, bottom);
            lemma_rectangle_between(x1 as int, x2 as int, top, bottom, x, y);
            lemma_joined_hold(here, there, x, y);
        }
        lemma_joined_hold(before, rectangles(cell), x, y);
        if lies_on_some(cells, boxes, values, m, x, y) {
            let i = choose|i: int|
                0 <= i < m && (#[trigger] cells[i]).1.values == values && lies_on(boxes[i], x, y);
            assert(i < n && cells[i].1.values == values);
        }
        if cells[n - 1].1.values == values && lies_on(cell, x, y) {
            assert(lies_on_some(cells, boxes, values, n, x, y));
        }
    }
}

/// The groups cover the tile as the cells do: each ring is a rectangle, and a pixel of the tile or
/// its margin lies in a ring of the group with certain values exactly where it lies on a cell with
/// those values.
pub proof fn law_groups_cover_the_pixels_of_their_cells(
    groups: Seq<ValueGroup>,
    cells: Seq<Entry>,
    boxes: Seq<PixelBox>,
    values: Values,
    x: int,
    y: int,
)
    requires
        are_groups(groups, cells, boxes, cells.len()),
        -32 <= x < 4128,
        -32 <= y < 4128,
    ensures
        lies_on_some(cells, boxes, values, cells.len(), x, y) <==> exists|g: int|
            {
                &&& 0 <= g < groups.len()
                &&& plain_values((#[trigger] groups[g]).values) == values
                &&& some_holds(ring_views(groups[g].rings@), x, y)
            },
        forall|g: int, r: int|
            0 <= g < groups.len() && 0 <= r < groups[g].rings@.len() ==> is_rectangle(
                (#[trigger] groups[g].rings@[r])@,
            ),
{
    let n = cells.len();
    lemma_covered_pixels(cells, boxes, values, n, x, y);
    if lies_on_some(cells, boxes, values, n, x, y) {
        let rings = covered(cells, boxes, values, n);
        assert(rings.len() > 0);
        assert(has_group(groups, values));
        let g = choose|g: int|
            0 <= g < groups.len() && plain_values((#[trigger] groups[g]).values) == values;
        assert(ring_views(groups[g].rings@) == rings);
    }
    assert forall|g: int, r: int|
        0 <= g < groups.len() && 0 <= r < groups[g].rings@.len() implies is_rectangle(
        (#[trigger] groups[g].rings@[r])@,
    ) by {
        let own = plain_values(groups[g].values);
        let rings = ring_views(groups[g].rings@);
        assert(rings == covered(cells, boxes, own, n));
        lemma_covered_pixels(cells, boxes, own, n, x, y);
        assert(rings[r] == groups[g].rings@[r]@);
    }
}

// ---------------------------------------------------------------------------
// In which order shapes are drawn
// ---------------------------------------------------------------------------

/// The rings of all shapes, one shape after another.
pub open spec fn all_rings(shapes: Seq<Seq<Seq<Corner>>>) -> Seq<Seq<Corner>>
    decreases shapes.len(),
{
    if shapes.len() == 0 {
        Seq::empty()
    } else {
        shapes[0] + all_rings(shapes.skip(1))
    }
}

/// The commands for rings, each drawn from where the one before was left.
pub open spec fn drawn_from(pen: Corner, rings: Seq<Seq<Corner>>) -> Seq<u32>
    decreases rings.len(),
{
    if rings.len() == 0 {
        Seq::empty()
    } else {
        ring_words(pen, rings[0]) + drawn_from(
            if rings[0].len() == 0 {
                pen
            } else {
                rings[0][rings[0].len() - 1]
            },
            rings.skip(1),
        )
    }
}

proof fn lemma_drawn_push(pen: Corner, rings: Seq<Seq<Corner>>, ring: Seq<Corner>)
    ensures
        drawn_from(pen, rings.push(ring)) == drawn_from(pen, rings) + ring_words(
            left_at(pen, rings),
            ring,
        ),
        left_at(pen, rings.push(ring)) == pen_after(left_at(pen, rings), ring),
    decreases rings.len(),
{
    let longer = rings.push(ring);
    if rings.len() == 0 {
        assert(longer.skip(1) =~= Seq::empty());
        assert(longer[0] == ring);
        assert(drawn_from(pen_after(pen, ring), longer.skip(1)) =~= Seq::empty());
        assert(drawn_from(pen, longer) =~= ring_words(pen, ring));
        assert(left_at(pen, longer.skip(1)) == pen);
        assert(drawn_from(pen, longer) =~= drawn_from(pen, rings) + ring_words(pen, ring));
        assert(left_at(pen, longer) == left_at(pen_after(pen, ring), longer.skip(1)));
    } else {
        let next = pen_after(pen, rings[0]);
        lemma_drawn_push(next, rings.skip(1), ring);
        assert(longer.skip(1) =~= rings.skip(1).push(ring));
        assert(longer[0] == rings[0]);
        assert(drawn_from(pen, longer) =~= drawn_from(pen, rings) + ring_words(
            left_at(pen, rings),
            ring,
        ));
    }
}

/// Where the pen is left after rings.
spec fn left_at(pen: Corner, rings: Seq<Seq<Corner>>) -> Corner
    decreases rings.len(),
{
    if rings.len() == 0 {
        pen
    } else {
        left_at(pen_after(pen, rings[0]), rings.skip(1))
    }
}

/// The rings of the first `n` shapes.
spec fn rings_before(shapes: Seq<Seq<Seq<Corner>>>, n: nat) -> Seq<Seq<Corner>>
    decreases n,
{
    if n == 0 {
        Seq::empty()
    } else {
        rings_before(shapes, (n - 1) as nat) + shapes[n - 1]
    }
}

proof fn lemma_rings_before(shapes: Seq<Seq<Seq<Corner>>>, n: nat)
    requires
        1 <= n <= shapes.len(),
    ensures
        rings_before(shapes, n) == shapes[0] + rings_before(shapes.skip(1), (n - 1) as nat),
    decreases n,
{
    if n == 1 {
        assert(rings_before(shapes, 0) + shapes[0] =~= shapes[0] + rings_before(shapes.skip(1), 0));
        assert(rings_before(shapes, 1) == rings_before(shapes, 0) + shapes[0]);
    } else {
        lemma_rings_before(shapes, (n - 1) as nat);
        let m = (n - 2) as nat;
        assert(shapes.skip(1)[n - 2] == shapes[n - 1]);
        assert(rings_before(shapes, n) =~= shapes[0] + (rings_before(shapes.skip(1), m)
            + shapes.skip(1)[n - 2]));
    }
}

proof fn lemma_all_rings(shapes: Seq<Seq<Seq<Corner>>>)
    ensures
        all_rings(shapes) == rings_before(shapes, shapes.len()),
    decreases shapes.len(),
{
    if shapes.len() > 0 {
        lemma_all_rings(shapes.skip(1));
        lemma_rings_before(shapes, shapes.len());
    }
}

proof fn lemma_with_rings(pen: Corner, done: Seq<Seq<Corner>>, rings: Seq<Seq<Corner>>, n: nat)
    requires
        n <= rings.len(),
    ensures
        with_rings(
            (Drawing { words: drawn_from(pen, done), pen: left_at(pen, done) }),
            rings,
            n,
        ) == (Drawing {
            words: drawn_from(pen, done + rings.take(n as int)),
            pen: left_at(pen, done + rings.take(n as int)),
        }),
    decreases n,
{
    if n == 0 {
        assert(done + rings.take(0) =~= done);
    } else {
        lemma_with_rings(pen, done, rings, (n - 1) as nat);
        let before = done + rings.take(n - 1);
        assert(done + rings.take(n as int) =~= before.push(rings[n - 1]));
        lemma_drawn_push(pen, before, rings[n - 1]);
    }
}

proof fn lemma_with_shapes(shapes: Seq<Seq<Seq<Corner>>>, n: nat)
    requires
        n <= shapes.len(),
    ensures
        with_shapes((Drawing { words: Seq::empty(), pen: (0i32, 0i32) }), shapes, n) == (Drawing {
            words: drawn_from((0i32, 0i32), rings_before(shapes, n)),
            pen: left_at((0i32, 0i32), rings_before(shapes, n)),
        }),
    decreases n,
{
    if n > 0 {
        lemma_with_shapes(shapes, (n - 1) as nat);
        let rings = shapes[n - 1];
        lemma_with_rings((0i32, 0i32), rings_before(shapes, (n - 1) as nat), rings, rings.len());
        assert(rings.take(rings.len() as int) =~= rings);
    }
}

/// Shapes are drawn ring by ring in their order, the first from the origin and each other one from
/// where the ring before it was left.
pub proof fn law_rings_are_drawn_one_after_another(shapes: Seq<Seq<Seq<Corner>>>)
    ensures
        shape_words(shapes) == drawn_from((0i32, 0i32), all_rings(shapes)),
{
    lemma_with_shapes(shapes, shapes.len());
    lemma_all_rings(shapes);
}

} // verus!
