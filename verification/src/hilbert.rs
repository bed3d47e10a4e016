//! Positions along the Hilbert curve.
use vstd::arithmetic::div_mod::*;
use vstd::arithmetic::power2::*;
use vstd::prelude::*;

verus! {

/// One step of the curve: in `state`, the quadrant with coordinate bits `x` and `y` is the
/// `.0`-th that the curve visits, and `.1` is the state in which it runs through that quadrant.
pub open spec fn turn(state: int, x: int, y: int) -> (int, int) {
    if state == 0 {
        if x == 0 {
            if y == 0 {
                (0, 1)
            } else {
                (1, 0)
            }
        } else {
            if y == 0 {
                (3, 2)
            } else {
                (2, 0)
            }
        }
    } else if state == 1 {
        if x == 0 {
            if y == 0 {
                (0, 0)
            } else {
                (3, 3)
            }
        } else {
            if y == 0 {
                (1, 1)
            } else {
                (2, 1)
            }
        }
    } else if state == 2 {
        if x == 0 {
            if y == 0 {
                (2, 2)
            } else {
                (1, 2)
            }
        } else {
            if y == 0 {
                (3, 0)
            } else {
                (0, 3)
            }
        }
    } else {
        if x == 0 {
            if y == 0 {
                (2, 3)
            } else {
                (3, 1)
            }
        } else {
            if y == 0 {
                (1, 3)
            } else {
                (0, 2)
            }
        }
    }
}

/// The position of a cell along the curve of an order, and the state at the cell.
pub open spec fn walk(order: nat, x: int, y: int) -> (int, int)
    decreases order,
{
    if order == 0 {
        (0, 0)
    } else {
        let (h, state) = walk((order - 1) as nat, x / 2, y / 2);
        let (quadrant, next) = turn(state, x % 2, y % 2);
        (4 * h + quadrant, next)
    }
}

/// The position of the cell at column `x` and row `y` along the curve through 2^`order` columns
/// and rows.
pub open spec fn curve(order: nat, x: int, y: int) -> int {
    walk(order, x, y).0
}

/// The cell lies in the square that the curve of an order fills.
pub open spec fn in_square(order: nat, x: int, y: int) -> bool {
    0 <= x < pow2(order) && 0 <= y < pow2(order)
}

// ---------------------------------------------------------------------------
// Trusted
// ---------------------------------------------------------------------------

/// Calls `fast_hilbert::xy2h`, whose documentation gives the curve as the table of states in
/// [`turn`]: the result is the cell's position along the curve.
#[verifier::external_body]
fn position_of(order: u8, x: u32, y: u32) -> (id: u64)
    requires
        order <= 32,
        in_square(order as nat, x as int, y as int),
    ensures
        id == curve(order as nat, x as int, y as int),
{
    fast_hilbert::xy2h(x, y, order)
}

/// Calls `fast_hilbert::h2xy`, the inverse of `fast_hilbert::xy2h`: the result is the cell at a
/// position along the curve.
#[verifier::external_body]
fn cell_at(order: u8, id: u64) -> (cell: (u32, u32))
    requires
        order <= 32,
        (id as int) < pow2(2 * order as nat),
    ensures
        in_square(order as nat, cell.0 as int, cell.1 as int),
        curve(order as nat, cell.0 as int, cell.1 as int) == id,
{
    fast_hilbert::h2xy::<u32>(id, order)
}

// ---------------------------------------------------------------------------
// Laws of the curve
// ---------------------------------------------------------------------------

/// Half of a coordinate lies in the square of the order below.
proof fn lemma_halved(order: nat, x: int, y: int)
    requires
        order > 0,
        in_square(order, x, y),
    ensures
        in_square((order - 1) as nat, x / 2, y / 2),
{
    lemma_pow2_unfold(order);
}

proof fn lemma_walk_state(order: nat, x: int, y: int)
    requires
        in_square(order, x, y),
    ensures
        0 <= walk(order, x, y).1 < 4,
    decreases order,
{
    if order > 0 {
        lemma_halved(order, x, y);
        lemma_walk_state((order - 1) as nat, x / 2, y / 2);
    }
}

/// Every cell of the square has a position between 0 and 4^`order`.
pub proof fn law_positions_fit(order: nat, x: int, y: int)
    requires
        in_square(order, x, y),
    ensures
        0 <= curve(order, x, y) < pow2(2 * order),
    decreases order,
{
    lemma2_to64();
    if order > 0 {
        lemma_halved(order, x, y);
        law_positions_fit((order - 1) as nat, x / 2, y / 2);
        lemma_pow2_adds(2, (2 * order - 2) as nat);
    }
}

/// No two cells share a position.
pub proof fn law_positions_differ(order: nat, x1: int, y1: int, x2: int, y2: int)
    requires
        in_square(order, x1, y1),
        in_square(order, x2, y2),
        curve(order, x1, y1) == curve(order, x2, y2),
    ensures
        x1 == x2,
        y1 == y2,
        walk(order, x1, y1) == walk(order, x2, y2),
    decreases order,
{
    if order == 0 {
        lemma2_to64();
    } else {
        lemma_halved(order, x1, y1);
        lemma_halved(order, x2, y2);
        law_positions_differ((order - 1) as nat, x1 / 2, y1 / 2, x2 / 2, y2 / 2);
        lemma_walk_state((order - 1) as nat, x1 / 2, y1 / 2);
    }
}

/// The curve of a higher order refines the curve of a lower one: the cells within one coarse cell
/// take up one unbroken run of positions, and the runs come in the order of the coarse cells.
pub proof fn law_curve_refines(coarse: nat, steps: nat, x: int, y: int)
    requires
        in_square(coarse + steps, x, y),
    ensures
        in_square(coarse, x / pow2(steps) as int, y / pow2(steps) as int),
        curve(coarse + steps, x, y) / pow2(2 * steps) as int == curve(
            coarse,
            x / pow2(steps) as int,
            y / pow2(steps) as int,
        ),
    decreases steps,
{
    lemma2_to64();
    if steps > 0 {
        lemma_halved(coarse + steps, x, y);
        law_curve_refines(coarse, (steps - 1) as nat, x / 2, y / 2);
        lemma_pow2_unfold(steps);
        lemma_pow2_pos((steps - 1) as nat);
        lemma_pow2_adds(2, (2 * steps - 2) as nat);
        lemma_pow2_pos((2 * steps - 2) as nat);
        let p = pow2((steps - 1) as nat) as int;
        lemma_div_denominator(x, 2, p);
        lemma_div_denominator(y, 2, p);
        let h = curve((coarse + steps - 1) as nat, x / 2, y / 2);
        let all = curve(coarse + steps, x, y);
        law_positions_fit(coarse + steps, x, y);
        law_positions_fit((coarse + steps - 1) as nat, x / 2, y / 2);
        assert(all / 4 == h) by {
            lemma_walk_state((coarse + steps - 1) as nat, x / 2, y / 2);
        }
        assert(2 * ((steps - 1) as nat) == (2 * steps - 2) as nat);
        assert(coarse + (steps - 1) as nat == (coarse + steps - 1) as nat);
        lemma_div_denominator(all, 4, pow2((2 * steps - 2) as nat) as int);
    } else {
        assert(pow2(2 * steps) == 1);
        assert(x / 1 == x && y / 1 == y && curve(coarse, x, y) / 1 == curve(coarse, x, y));
    }
}

// ---------------------------------------------------------------------------
// Operations
// ---------------------------------------------------------------------------

/// The position of a cell along the curve of order `base_z`.
pub fn xy_to_hilbert(base_z: u8, x: u32, y: u32) -> (id: u64)
    requires
        base_z <= 32,
        in_square(base_z as nat, x as int, y as int),
    ensures
        id == curve(base_z as nat, x as int, y as int),
        (id as int) < pow2(2 * base_z as nat),
{
    proof {
        law_positions_fit(base_z as nat, x as int, y as int);
    }
    position_of(base_z, x, y)
}

/// The cell at a position along the curve of order `base_z`.
pub fn hilbert_to_xy(base_z: u8, id: u64) -> (cell: (u32, u32))
    requires
        base_z <= 32,
        (id as int) < pow2(2 * base_z as nat),
    ensures
        in_square(base_z as nat, cell.0 as int, cell.1 as int),
        curve(base_z as nat, cell.0 as int, cell.1 as int) == id,
        forall|x: int, y: int|
            #![trigger curve(base_z as nat, x, y)]
            in_square(base_z as nat, x, y) && curve(base_z as nat, x, y) == id ==> x == cell.0 && y
                == cell.1,
{
    let cell = cell_at(base_z, id);
    proof {
        assert forall|x: int, y: int|
            #![trigger curve(base_z as nat, x, y)]
            in_square(base_z as nat, x, y) && curve(base_z as nat, x, y) == id implies x == cell.0
            && y == cell.1 by {
            law_positions_differ(base_z as nat, x, y, cell.0 as int, cell.1 as int);
        }
    }
    cell
}

/// Every position up to 4^`order` is that of a cell of the square.
pub proof fn law_positions_are_taken(order: nat, id: int)
    requires
        0 <= id < pow2(2 * order),
    ensures
        exists|cell: (int, int)|
            #![trigger curve(order, cell.0, cell.1)]
            in_square(order, cell.0, cell.1) && curve(order, cell.0, cell.1) == id,
    decreases order,
{
    lemma2_to64();
    if order == 0 {
        let cell = (0int, 0int);
        assert(in_square(order, cell.0, cell.1) && curve(order, cell.0, cell.1) == id);
    } else {
        lemma_pow2_adds(2, (2 * order - 2) as nat);
        lemma_pow2_unfold(order);
        let below = (order - 1) as nat;
        assert(2 * below == (2 * order - 2) as nat);
        law_positions_are_taken(below, id / 4);
        let (x, y) = choose|cell: (int, int)|
            #![trigger curve(below, cell.0, cell.1)]
            in_square(below, cell.0, cell.1) && curve(below, cell.0, cell.1) == id / 4;
        lemma_walk_state(below, x, y);
        let state = walk(below, x, y).1;
        let quadrant = id % 4;
        let (bx, by) = if turn(state, 0, 0).0 == quadrant {
            (0int, 0int)
        } else if turn(state, 0, 1).0 == quadrant {
            (0int, 1int)
        } else if turn(state, 1, 0).0 == quadrant {
            (1int, 0int)
        } else {
            (1int, 1int)
        };
        let cell = (2 * x + bx, 2 * y + by);
        assert(cell.0 / 2 == x && cell.1 / 2 == y && cell.0 % 2 == bx && cell.1 % 2 == by);
        assert(turn(state, bx, by).0 == quadrant);
        assert(in_square(order, cell.0, cell.1) && curve(order, cell.0, cell.1) == id);
    }
}

/// The quadrant in which the curve begins in a state.
spec fn entry(state: int) -> (int, int) {
    if state <= 1 {
        (0, 0)
    } else {
        (1, 1)
    }
}

/// The quadrant in which the curve ends in a state.
spec fn exit(state: int) -> (int, int) {
    if state == 0 || state == 2 {
        (1, 0)
    } else {
        (0, 1)
    }
}

proof fn lemma_neighbours(order: nat, x1: int, y1: int, x2: int, y2: int)
    requires
        in_square(order, x1, y1),
        in_square(order, x2, y2),
        curve(order, x2, y2) == curve(order, x1, y1) + 1,
    ensures
        (x1 == x2 && (y2 == y1 + 1 || y1 == y2 + 1)) || (y1 == y2 && (x2 == x1 + 1 || x1 == x2 + 1)),
        ({
            let (leave, enter) = (exit(walk(order, x1, y1).1), entry(walk(order, x2, y2).1));
            &&& 2 * (x2 - x1) + enter.0 - leave.0 == x2 - x1
            &&& 2 * (y2 - y1) + enter.1 - leave.1 == y2 - y1
        }),
    decreases order,
{
    lemma2_to64();
    if order > 0 {
        let below = (order - 1) as nat;
        let (a, b, c, d) = (x1 / 2, y1 / 2, x2 / 2, y2 / 2);
        lemma_halved(order, x1, y1);
        lemma_halved(order, x2, y2);
        lemma_walk_state(below, a, b);
        lemma_walk_state(below, c, d);
        let (s, t) = (walk(below, a, b).1, walk(below, c, d).1);
        let (q, r) = (turn(s, x1 % 2, y1 % 2).0, turn(t, x2 % 2, y2 % 2).0);
        assert(0 <= q < 4 && 0 <= r < 4);
        assert(4 * curve(below, c, d) + r == 4 * curve(below, a, b) + q + 1);
        if curve(below, c, d) == curve(below, a, b) {
            law_positions_differ(below, a, b, c, d);
        } else {
            assert(q == 3 && r == 0);
            lemma_neighbours(below, a, b, c, d);
            assert(x1 == 2 * a + exit(s).0 && y1 == 2 * b + exit(s).1);
            assert(x2 == 2 * c + entry(t).0 && y2 == 2 * d + entry(t).1);
        }
    }
}

/// The curve runs from cell to neighbouring cell: cells whose positions are one apart share a side.
/// It begins in the first column and row, and ends in the last column and the first row.
pub proof fn law_the_curve_is_unbroken(order: nat, x1: int, y1: int, x2: int, y2: int)
    requires
        in_square(order, x1, y1),
        in_square(order, x2, y2),
    ensures
        curve(order, x2, y2) == curve(order, x1, y1) + 1 ==> {
            ||| x1 == x2 && (y2 == y1 + 1 || y1 == y2 + 1)
            ||| y1 == y2 && (x2 == x1 + 1 || x1 == x2 + 1)
        },
        curve(order, 0, 0) == 0,
        curve(order, pow2(order) - 1, 0) == pow2(2 * order) - 1,
{
    if curve(order, x2, y2) == curve(order, x1, y1) + 1 {
        lemma_neighbours(order, x1, y1, x2, y2);
    }
    lemma_ends(order);
}

proof fn lemma_ends(order: nat)
    ensures
        curve(order, 0, 0) == 0,
        0 <= walk(order, 0, 0).1 <= 1,
        curve(order, pow2(order) - 1, 0) == pow2(2 * order) - 1,
        walk(order, pow2(order) - 1, 0).1 == 0 || walk(order, pow2(order) - 1, 0).1 == 2,
    decreases order,
{
    lemma2_to64();
    if order > 0 {
        lemma_ends((order - 1) as nat);
        lemma_pow2_unfold(order);
        lemma_pow2_pos((order - 1) as nat);
        lemma_pow2_adds(2, (2 * order - 2) as nat);
        assert(2 * ((order - 1) as nat) == (2 * order - 2) as nat);
        assert((pow2(order) - 1) / 2 == pow2((order - 1) as nat) - 1);
        assert((pow2(order) - 1) % 2 == 1);
    }
}

} // verus!
