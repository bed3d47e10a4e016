//! Reading gridded messages: what each section of a message means for the products.
//!
//! The sections arrive one after the other, decoded into plain values. A section that this reader
//! does not understand is answered with a [`GribFault`], and changes nothing.
use crate::model::BandSpec;
use crate::number::{equal, Number};
use crate::products::{
    GeneratingProcessType, GpvProductIdentifier, PointValue, ProductData, ProductKey,
    ProductKind,
};
use crate::text::{
    decimal, digits_value, law_numerals_tell_the_number, numeral, same, texts,
};
use crate::time::{is_moment, lemma_moments_fit, moment, moment_after, utc_moment, EARLIEST, LATEST};
use bit_vec::BitVec;
use vstd::arithmetic::div_mod::*;
use vstd::arithmetic::mul::*;
use vstd::arithmetic::power2::*;
use vstd::prelude::*;

verus! {

/// What is wrong with a section.
#[derive(Clone, Copy, Debug, PartialEq, Eq, Structural)]
pub enum GribFault {
    /// The data is not operational.
    NotOperational,
    /// The grid is not one of longitude and latitude.
    GridTemplate,
    /// The increments of the grid are not given.
    GridFlags,
    /// The rows of the grid run in a way that is not known.
    ScanningMode,
    /// No identification came before.
    NoIdentification,
    /// The reference time does not exist.
    InvalidTime,
    /// The unit of the forecast time is not known.
    TimeUnit,
    /// The forecast time is out of range.
    TimeRange,
    /// The template of the product is not known.
    ProductTemplate,
    /// The typhoon product comes from another process.
    TyphoonProcess,
    /// No product came before.
    NoProduct,
    /// The product lacks the band.
    NoBand,
    /// The band was scaled in another way before.
    ScaleMismatch,
    /// The template of the data is not known.
    DataTemplate,
    /// The bitmap is one that is not known.
    BitmapIndicator,
    /// No grid came before.
    NoGrid,
    /// The grid has more cells than a bitmap can have bits.
    TooManyCells,
    /// The bitmap ends early.
    TruncatedBitmap,
    /// The data lies west of its grid.
    WestOfGrid,
    /// The data lies south of its grid.
    SouthOfGrid,
    /// A cell of the data has no width.
    NoWidth,
    /// The cells of the data do not lie on those of the grid.
    Misaligned,
    /// There are fewer values, or bits in the bitmap, than cells.
    TooFewValues,
}

/// The section that says when the data was made.
#[derive(Clone, Copy, Debug, PartialEq, Eq, Structural)]
pub struct Identification {
    pub production_status: u8,
    pub year: u16,
    pub month: u8,
    pub day: u8,
    pub hour: u8,
    pub minute: u8,
    pub second: u8,
}

/// The section that says where the data lies.
#[derive(Clone, Copy, Debug, PartialEq, Eq, Structural)]
pub struct GridDefinition {
    pub template_number: u16,
    pub resolution_and_component_flags: u8,
    pub scanning_mode: u8,
    pub n_i: u32,
    pub n_j: u32,
    pub la1: i32,
    pub lo1: i32,
    pub la2: i32,
    pub lo2: i32,
}

/// What a product's template brings along.
#[derive(Clone, Copy, Debug, PartialEq, Eq, Structural)]
pub enum Template {
    /// The path of a typhoon.
    TyphoonStorm,
    /// Values at a moment.
    Plain,
    /// Values at a moment, for one member of an ensemble.
    Member,
    /// Values over a while, for one member of an ensemble.
    MemberOverTime,
    /// Values over a while.
    OverTime,
}

/// How values are packed.
#[derive(Clone, Copy, Debug, PartialEq, Eq, Structural)]
pub enum Packing {
    Simple,
    Complex,
    RunLength,
}

/// How the packed values of a band are scaled.
#[derive(Clone, Copy, Debug, PartialEq, Eq, Structural)]
pub enum Scaling {
    /// By a reference value and two factors.
    Packed { reference_value: Number, binary_scale_factor: i16, decimal_scale_factor: i16 },
    /// By the decimal factor of a table of levels.
    Levels { decimal_scale_factor: i8 },
}

/// Where the data lies on the grid of its product.
#[derive(Clone, Copy, Debug, PartialEq, Eq, Structural)]
pub struct Placement {
    /// The west side of the grid in millionths of a degree.
    pub lng_floor: i32,
    /// The south side of the grid in millionths of a degree.
    pub lat_floor: i32,
    /// The column of the first cell.
    pub x: i32,
    /// The row of the first cell.
    pub y: i32,
    /// The width of a cell, counted in cells of the grid.
    pub width: i32,
    /// The first column falls on a cell of the grid.
    pub aligned: bool,
}

// ---------------------------------------------------------------------------
// Templates and times
// ---------------------------------------------------------------------------

/// What a product's template brings along, if it is known.
pub open spec fn known_template(number: u16) -> Option<Template> {
    if number == 50031 {
        Some(Template::TyphoonStorm)
    } else if number == 0 || number == 50000 {
        Some(Template::Plain)
    } else if number == 1 {
        Some(Template::Member)
    } else if number == 11 {
        Some(Template::MemberOverTime)
    } else if number == 8 || number == 50008 || number == 50009 || number == 50011 || number
        == 50012 {
        Some(Template::OverTime)
    } else {
        None
    }
}

/// What a product's template brings along.
pub fn product_template(number: u16) -> (result: Result<Template, GribFault>)
    ensures
        result == (match known_template(number) {
            Some(template) => Ok::<Template, GribFault>(template),
            None => Err(GribFault::ProductTemplate),
        }),
{
    match number {
        50031 => Ok(Template::TyphoonStorm),
        0 | 50000 => Ok(Template::Plain),
        1 => Ok(Template::Member),
        11 => Ok(Template::MemberOverTime),
        8 | 50008 | 50009 | 50011 | 50012 => Ok(Template::OverTime),
        _ => Err(GribFault::ProductTemplate),
    }
}

/// How the values of a data section are packed, if that is known.
pub open spec fn packing_of(number: u16) -> Option<Packing> {
    if number == 0 {
        Some(Packing::Simple)
    } else if number == 3 {
        Some(Packing::Complex)
    } else if number == 200 {
        Some(Packing::RunLength)
    } else {
        None
    }
}

/// How the values of a data section are packed.
pub fn data_packing(number: u16) -> (result: Result<Packing, GribFault>)
    ensures
        result == (if number == 0 {
            Ok::<Packing, GribFault>(Packing::Simple)
        } else if number == 3 {
            Ok(Packing::Complex)
        } else if number == 200 {
            Ok(Packing::RunLength)
        } else {
            Err(GribFault::DataTemplate)
        }),
        match packing_of(number) {
            Some(packing) => result == Ok::<Packing, GribFault>(packing),
            None => result is Err,
        },
{
    match number {
        0 => Ok(Packing::Simple),
        3 => Ok(Packing::Complex),
        200 => Ok(Packing::RunLength),
        _ => Err(GribFault::DataTemplate),
    }
}

/// The seconds in a unit of forecast time, if it is known.
pub open spec fn unit_seconds(unit: u8) -> Option<int> {
    if unit == 0 {
        Some(60)
    } else if unit == 1 {
        Some(3600)
    } else if unit == 2 {
        Some(86400)
    } else {
        None
    }
}

/// The moment of an identification, if it exists.
pub open spec fn reference_of(ids: Identification) -> Option<int> {
    let (year, month, day) = (ids.year as int, ids.month as int, ids.day as int);
    let (hour, minute, second) = (ids.hour as int, ids.minute as int, ids.second as int);
    if is_moment(year, month, day, hour, minute, second) {
        Some(moment(year, month, day, hour, minute, second))
    } else {
        None
    }
}

/// The reference time and the valid time of a product.
pub open spec fn product_times(
    ids: Option<Identification>,
    unit: u8,
    forecast_time: int,
) -> Result<(int, int), GribFault> {
    match ids {
        None => Err(GribFault::NoIdentification),
        Some(ids) => match reference_of(ids) {
            None => Err(GribFault::InvalidTime),
            Some(reference) => match unit_seconds(unit) {
                None => Err(GribFault::TimeUnit),
                Some(seconds) => {
                    let valid = reference + forecast_time * seconds;
                    if EARLIEST <= valid <= LATEST {
                        Ok((reference, valid))
                    } else {
                        Err(GribFault::TimeRange)
                    }
                },
            },
        },
    }
}

// ---------------------------------------------------------------------------
// Bitmaps
// ---------------------------------------------------------------------------

/// `bit_vec::BitVec`, which is opaque here.
#[verifier::external_type_specification]
#[verifier::external_body]
#[verifier::reject_recursive_types(B)]
pub struct ExBitVec<B>(BitVec<B>);

/// The bits of a `bit_vec::BitVec`.
pub uninterp spec fn bit_contents(bits: BitVec<u32>) -> Seq<bool>;

/// The bit at a place among bytes, from the most significant bit of each byte down.
pub open spec fn bit_of(bytes: Seq<u8>, place: int) -> bool {
    (bytes[place / 8] as int / pow2((7 - place % 8) as nat) as int) % 2 == 1
}

/// The first `count` bits of some bytes.
pub open spec fn bits_of(bytes: Seq<u8>, count: nat) -> Seq<bool> {
    Seq::new(count, |place: int| bit_of(bytes, place))
}

/// Calls `bit_vec::BitVec::from_bytes`: every byte becomes eight bits, the most significant first.
#[verifier::external_body]
fn bits_from(bytes: &[u8]) -> (bits: BitVec<u32>)
    requires
        bytes@.len() * 8 <= usize::MAX,
    ensures
        bit_contents(bits) == bits_of(bytes@, bytes@.len() * 8),
{
    BitVec::from_bytes(bytes)
}

/// Calls `bit_vec::BitVec::truncate`: drops the bits behind the first `count`.
#[verifier::external_body]
fn cut_bits(bits: &mut BitVec<u32>, count: usize)
    ensures
        bit_contents(*final(bits)) == (if count < bit_contents(*old(bits)).len() {
            bit_contents(*old(bits)).take(count as int)
        } else {
            bit_contents(*old(bits))
        }),
{
    bits.truncate(count);
}

/// Calls `bit_vec::BitVec::get`: the bit at a place, if there is one.
#[verifier::external_body]
fn bit_at(bits: &BitVec<u32>, place: usize) -> (bit: Option<bool>)
    ensures
        bit == (if place < bit_contents(*bits).len() {
            Some(bit_contents(*bits)[place as int])
        } else {
            None
        }),
{
    bits.get(place)
}

/// Calls `bit_vec::BitVec::len`: the number of bits.
#[verifier::external_body]
fn bit_count(bits: &BitVec<u32>) -> (count: usize)
    ensures
        count == bit_contents(*bits).len(),
{
    bits.len()
}

/// The bits of a bitmap, where there is one.
pub open spec fn bitmap_bits(bitmap: Option<BitVec<u32>>) -> Option<Seq<bool>> {
    match bitmap {
        Some(bits) => Some(bit_contents(bits)),
        None => None,
    }
}

/// The number of bytes that so many bits take up.
pub open spec fn bytes_for(bits: int) -> int {
    (bits + 7) / 8
}

/// Reads a bitmap from the start of some bytes, and says how many bytes it took up; nothing where
/// the bytes end early.
pub fn read_bitmap(bytes: &Vec<u8>, num_points: usize) -> (result: Option<(BitVec<u32>, usize)>)
    requires
        num_points <= usize::MAX - 7,
    ensures
        match result {
            Some((bits, taken)) => {
                &&& taken == bytes_for(num_points as int)
                &&& taken <= bytes@.len()
                &&& bit_contents(bits) == bits_of(bytes@, num_points as nat)
            },
            None => bytes@.len() < bytes_for(num_points as int),
        },
{
    let taken: usize = num_points / 8 + if num_points % 8 > 0 {
        1
    } else {
        0
    };
    if bytes.len() < taken {
        return None;
    }
    let part = vstd::slice::slice_subrange(bytes.as_slice(), 0, taken);
    let mut bits = bits_from(part);
    cut_bits(&mut bits, num_points);
    proof {
        assert(bit_contents(bits) =~= bits_of(bytes@, num_points as nat)) by {
            assert forall|place: int| 0 <= place < num_points implies (#[trigger] bit_of(
                part@,
                place,
            )) == bit_of(bytes@, place) by {
                assert(part@[place / 8] == bytes@[place / 8]);
            }
            assert(bit_contents(bits).len() == num_points);
            assert forall|place: int| 0 <= place < num_points implies (#[trigger] bit_contents(
                bits,
            )[place]) == bits_of(bytes@, num_points as nat)[place] by {
                assert(bit_of(part@, place) == bit_of(bytes@, place));
            }
        }
    }
    Some((bits, taken))
}

// ---------------------------------------------------------------------------
// Cells and values
// ---------------------------------------------------------------------------

/// How the cells of a data section lie on the grid.
pub struct Layout {
    pub x_first: int,
    pub y_first: int,
    /// The distance between neighbouring cells.
    pub width: int,
    /// The number of cells in a row.
    pub n_i: int,
    /// Rows run towards smaller row numbers.
    pub downward: bool,
    pub band: u8,
    pub power: u8,
}

/// The value of the `k`-th cell, with its place. Columns and rows are counted modulo 2^16.
pub open spec fn point_of(layout: Layout, k: int, value: i32) -> PointValue {
    let x = layout.x_first + (k % layout.n_i) * layout.width;
    let step = (k / layout.n_i) * layout.width;
    let y = if layout.downward {
        layout.y_first - step
    } else {
        layout.y_first + step
    };
    PointValue {
        x: (x % 0x1_0000) as u16,
        y: (y % 0x1_0000) as u16,
        point_id: 0,
        value,
        band_idx: layout.band,
        point_power: layout.power,
    }
}

/// The points of the first `n` cells, and how many values they took. With a bitmap only the cells
/// whose bit is set have a value. The least integer stands for a missing value, which makes no
/// point. Nothing where bits or values run out.
pub open spec fn scanned(
    layout: Layout,
    bitmap: Option<Seq<bool>>,
    values: Seq<i32>,
    n: nat,
) -> Option<(Seq<PointValue>, nat)>
    decreases n,
{
    if n == 0 {
        Some((Seq::empty(), 0))
    } else {
        let k = n - 1;
        match scanned(layout, bitmap, values, (n - 1) as nat) {
            None => None,
            Some((points, used)) => if bitmap is Some && k >= bitmap->Some_0.len() {
                None
            } else if bitmap is Some && !bitmap->Some_0[k] {
                Some((points, used))
            } else if used >= values.len() {
                None
            } else if values[used as int] == i32::MIN {
                Some((points, used + 1))
            } else {
                Some((points.push(point_of(layout, k, values[used as int])), used + 1))
            },
        }
    }
}

/// The lesser of two values that may be missing.
pub open spec fn lesser(a: Option<i32>, b: Option<i32>) -> Option<i32> {
    match (a, b) {
        (None, _) => b,
        (_, None) => a,
        (Some(x), Some(y)) => if y < x {
            b
        } else {
            a
        },
    }
}

/// The greater of two values that may be missing.
pub open spec fn greater(a: Option<i32>, b: Option<i32>) -> Option<i32> {
    match (a, b) {
        (None, _) => b,
        (_, None) => a,
        (Some(x), Some(y)) => if y > x {
            b
        } else {
            a
        },
    }
}

/// The value, unless it stands for a missing one.
pub open spec fn actual(value: i32) -> Option<i32> {
    if value == i32::MIN {
        None
    } else {
        Some(value)
    }
}

/// The least of a start value and the first `n` values.
pub open spec fn least(start: Option<i32>, values: Seq<i32>, n: nat) -> Option<i32>
    decreases n,
{
    if n == 0 {
        start
    } else {
        lesser(least(start, values, (n - 1) as nat), actual(values[n - 1]))
    }
}

/// The greatest of a start value and the first `n` values.
pub open spec fn greatest(start: Option<i32>, values: Seq<i32>, n: nat) -> Option<i32>
    decreases n,
{
    if n == 0 {
        start
    } else {
        greater(greatest(start, values, (n - 1) as nat), actual(values[n - 1]))
    }
}

/// No value lies below the least or above the greatest.
pub proof fn law_extremes_bound_the_values(
    start: Option<i32>,
    values: Seq<i32>,
    n: nat,
    i: int,
)
    requires
        n <= values.len(),
        0 <= i < n,
        values[i] != i32::MIN,
    ensures
        least(start, values, n) matches Some(low) && low <= values[i],
        greatest(start, values, n) matches Some(high) && values[i] <= high,
    decreases n,
{
    if i < n - 1 {
        law_extremes_bound_the_values(start, values, (n - 1) as nat, i);
    }
}

/// The largest power of two that is at most a number.
pub open spec fn is_log(power: nat, n: int) -> bool {
    pow2(power) <= n < pow2(power + 1)
}

/// The exponent of the largest power of two that is at most a number.
fn log_of(n: u32) -> (power: u8)
    requires
        n >= 1,
    ensures
        is_log(power as nat, n as int),
        power <= 31,
{
    let mut power: u8 = 0;
    let mut rest: u32 = n;
    proof {
        lemma2_to64();
        lemma_div_basics(n as int);
    }
    while rest > 1
        invariant
            power <= 31,
            rest >= 1,
            rest == n as int / pow2(power as nat) as int,
            pow2(power as nat) <= n,
        decreases rest,
    {
        proof {
            let p = pow2(power as nat) as int;
            lemma_pow2_pos(power as nat);
            lemma_pow2_unfold((power + 1) as nat);
            lemma_div_denominator(n as int, p, 2);
            lemma_mul_is_commutative(p, 2);
            lemma_fundamental_div_mod(n as int, p);
            assert(2 * p <= n) by (nonlinear_arith)
                requires
                    n == p * (n as int / p) + n as int % p,
                    n as int / p >= 2,
                    n as int % p >= 0,
                    p >= 1,
            ;
            lemma2_to64();
            if power >= 31 {
                assert(pow2(32) == 0x1_0000_0000);
                assert(pow2((power + 1) as nat) == 2 * p);
            }
        }
        rest = rest / 2;
        power = power + 1;
    }
    proof {
        let p = pow2(power as nat) as int;
        lemma_pow2_pos(power as nat);
        lemma_pow2_unfold((power + 1) as nat);
        lemma_fundamental_div_mod(n as int, p);
        lemma_mod_bound(n as int, p);
    }
    power
}

proof fn lemma_scan_failed(
    layout: Layout,
    bitmap: Option<Seq<bool>>,
    values: Seq<i32>,
    n: nat,
    m: nat,
)
    requires
        n <= m,
        scanned(layout, bitmap, values, n) is None,
    ensures
        scanned(layout, bitmap, values, m) is None,
    decreases m,
{
    if n < m {
        lemma_scan_failed(layout, bitmap, values, n, (m - 1) as nat);
    }
}

/// The row some steps before or behind another, modulo 2^16.
fn row_after(y_first: u32, step: u64, downward: bool) -> (y: u16)
    requires
        step <= 0xffff_ffff * 0x8000_0000,
    ensures
        y == (if downward {
            y_first - step
        } else {
            y_first + step
        }) % 0x1_0000,
{
    if downward {
        let behind: u64 = step % 0x1_0000;
        let here: u64 = y_first as u64 % 0x1_0000;
        ((here + 0x1_0000 - behind) % 0x1_0000) as u16
    } else {
        ((y_first as u64 + step) % 0x1_0000) as u16
    }
}

/// The points of all cells; nothing where bits or values run out.
fn scan(
    x_first: u32,
    y_first: u32,
    grid: &GridDefinition,
    band: u8,
    power: u8,
    bitmap: &Option<BitVec<u32>>,
    values: &Vec<i32>,
) -> (result: Option<Vec<PointValue>>)
    requires
        power <= 31,
    ensures
        ({
            let layout = Layout {
                x_first: x_first as int,
                y_first: y_first as int,
                width: pow2(power as nat) as int,
                n_i: grid.n_i as int,
                downward: grid.scanning_mode == 0,
                band,
                power,
            };
            let bits = bitmap_bits(*bitmap);
            match (result, scanned(layout, bits, values@, (grid.n_i * grid.n_j) as nat)) {
                (Some(points), Some((all, _))) => points@ == all,
                (None, None) => true,
                _ => false,
            }
        }),
{
    let ghost layout = Layout {
        x_first: x_first as int,
        y_first: y_first as int,
        width: pow2(power as nat) as int,
        n_i: grid.n_i as int,
        downward: grid.scanning_mode == 0,
        band,
        power,
    };
    let ghost bits = bitmap_bits(*bitmap);
    let ghost total = (grid.n_i * grid.n_j) as nat;
    let width: u64 = crate::tile::shifted(power);
    let downward = grid.scanning_mode == 0;
    let mut points: Vec<PointValue> = Vec::new();
    let mut used: usize = 0;
    let mut place: u64 = 0;
    let mut j: u32 = 0;
    proof {
        lemma_mul_basics(grid.n_i as int);
        lemma2_to64();
        if power < 31 {
            lemma_pow2_strictly_increases(power as nat, 31);
        }
    }
    while j < grid.n_j
        invariant
            j <= grid.n_j,
            power <= 31,
            width == pow2(power as nat),
            1 <= width <= 0x8000_0000,
            downward == (grid.scanning_mode == 0),
            layout == (Layout {
                x_first: x_first as int,
                y_first: y_first as int,
                width: width as int,
                n_i: grid.n_i as int,
                downward,
                band,
                power,
            }),
            bits == bitmap_bits(*bitmap),
            total == grid.n_i * grid.n_j,
            place == j * grid.n_i,
            used <= values@.len(),
            scanned(layout, bits, values@, place as nat) == Some((points@, used as nat)),
        decreases grid.n_j - j,
    {
        proof {
            assert(j * width <= 0xffff_ffff * 0x8000_0000) by (nonlinear_arith)
                requires
                    j <= 0xffff_ffff,
                    0 <= width <= 0x8000_0000,
            ;
        }
        let step: u64 = j as u64 * width;
        let y: u16 = row_after(y_first, step, downward);
        let mut i: u32 = 0;
        while i < grid.n_i
            invariant
                j < grid.n_j,
                i <= grid.n_i,
                power <= 31,
                width == pow2(power as nat),
                1 <= width <= 0x8000_0000,
                downward == (grid.scanning_mode == 0),
                layout == (Layout {
                    x_first: x_first as int,
                    y_first: y_first as int,
                    width: width as int,
                    n_i: grid.n_i as int,
                    downward,
                    band,
                    power,
                }),
                bits == bitmap_bits(*bitmap),
                total == grid.n_i * grid.n_j,
                place == j * grid.n_i + i,
                step == j * width,
                y == (if downward {
                    y_first - step
                } else {
                    y_first + step
                }) % 0x1_0000,
                used <= values@.len(),
                scanned(layout, bits, values@, place as nat) == Some((points@, used as nat)),
            decreases grid.n_i - i,
        {
            proof {
                lemma_fundamental_div_mod_converse(
                    place as int,
                    grid.n_i as int,
                    j as int,
                    i as int,
                );
                assert(place + 1 <= total) by (nonlinear_arith)
                    requires
                        place == j * grid.n_i + i,
                        i < grid.n_i,
                        j < grid.n_j,
                        total == grid.n_i * grid.n_j,
                ;
                assert(total <= 0xffff_ffff * 0xffff_ffff) by (nonlinear_arith)
                    requires
                        total == grid.n_i * grid.n_j,
                        grid.n_i <= 0xffff_ffff,
                        grid.n_j <= 0xffff_ffff,
                ;
                if scanned(layout, bits, values@, (place + 1) as nat) is None {
                    lemma_scan_failed(layout, bits, values@, (place + 1) as nat, total);
                }
                assert(i * width <= 0xffff_ffff * 0x8000_0000) by (nonlinear_arith)
                    requires
                        i <= 0xffff_ffff,
                        0 <= width <= 0x8000_0000,
                ;
            }
            let wanted = match bitmap {
                None => true,
                Some(bitmap) => {
                    if place >= bit_count(bitmap) as u64 {
                        return None;
                    }
                    match bit_at(bitmap, place as usize) {
                        None => return None,
                        Some(bit) => bit,
                    }
                },
            };
            if wanted {
                if used >= values.len() {
                    return None;
                }
                let value: i32 = values[used];
                used = used + 1;
                if value != i32::MIN {
                    let x: u16 = ((x_first as u64 + i as u64 * width) % 0x1_0000) as u16;
                    points.push(
                        PointValue {
                            x,
                            y,
                            point_id: 0,
                            value,
                            band_idx: band,
                            point_power: power,
                        },
                    );
                }
            }
            place = place + 1;
            i = i + 1;
        }
        proof {
            assert(place == (j + 1) * grid.n_i) by (nonlinear_arith)
                requires
                    place == j * grid.n_i + grid.n_i,
            ;
        }
        j = j + 1;
    }
    proof {
        assert(place == total) by (nonlinear_arith)
            requires
                place == j * grid.n_i,
                j == grid.n_j,
                total == grid.n_i * grid.n_j,
        ;
    }
    Some(points)
}

// ---------------------------------------------------------------------------
// The reader
// ---------------------------------------------------------------------------

/// Products as far as they have been read, and what the sections so far said.
#[derive(Debug)]
pub struct GridSquareMessageReader {
    pub ids: Option<Identification>,
    pub grid: Option<GridDefinition>,
    /// The place of the current product.
    pub current: Option<usize>,
    pub band: u8,
    pub bitmap: Option<BitVec<u32>>,
    pub products: Vec<(GpvProductIdentifier, ProductData)>,
    /// The latest reference time of each kind of product.
    pub latest_reference_times: Vec<(String, i64)>,
}

/// A band that has a name and nothing else.
pub open spec fn is_fresh_band(band: BandSpec, name: Seq<char>) -> bool {
    &&& band.name@ == name
    &&& band.reference_value == (Number { bits: 0 })
    &&& band.binary_scale == 0
    &&& band.decimal_scale == 0
    &&& band.max is None
    &&& band.min is None
}

/// The data of a product of which nothing has been read.
pub open spec fn is_fresh(data: ProductData, names: Seq<Seq<char>>) -> bool {
    &&& data.points@.len() == 0
    &&& data.band_specs@.len() == names.len()
    &&& forall|b: int|
        0 <= b < names.len() ==> is_fresh_band(#[trigger] data.band_specs@[b], names[b])
}

/// A product with the key stands among the products.
pub open spec fn has_product(
    products: Seq<(GpvProductIdentifier, ProductData)>,
    key: ProductKey,
) -> bool {
    exists|p: int| 0 <= p < products.len() && (#[trigger] products[p]).0.key() == key
}

/// The kinds and times, in terms of characters.
pub open spec fn time_views(times: Seq<(String, i64)>) -> Seq<(Seq<char>, i64)> {
    times.map_values(|entry: (String, i64)| (entry.0@, entry.1))
}

/// The latest times with one more time of a kind.
pub open spec fn with_time(times: Seq<(Seq<char>, i64)>, kind: Seq<char>, time: i64) -> Seq<
    (Seq<char>, i64),
> {
    if exists|i: int| 0 <= i < times.len() && (#[trigger] times[i]).0 == kind {
        times.map_values(
            |entry: (Seq<char>, i64)|
                if entry.0 == kind && time > entry.1 {
                    (kind, time)
                } else {
                    entry
                },
        )
    } else {
        times.push((kind, time))
    }
}

/// No kind occurs twice.
pub open spec fn distinct_kinds(times: Seq<(Seq<char>, i64)>) -> bool {
    forall|i: int, j: int|
        0 <= i < j < times.len() ==> (#[trigger] times[i]).0 != (#[trigger] times[j]).0
}

proof fn lemma_kinds_stay_distinct(times: Seq<(Seq<char>, i64)>, kind: Seq<char>, time: i64)
    requires
        distinct_kinds(times),
    ensures
        distinct_kinds(with_time(times, kind, time)),
{
    let after = with_time(times, kind, time);
    assert forall|i: int, j: int| 0 <= i < j < after.len() implies (#[trigger] after[i]).0 != (
    #[trigger] after[j]).0 by {
        assert(times[i].0 == after[i].0);
        if j < times.len() {
            assert(times[j].0 == after[j].0);
        }
    }
}

/// The factors of a band agree with those that it had before, if it had any.
pub open spec fn scales_agree(band: BandSpec, scaling: Scaling) -> bool {
    match scaling {
        Scaling::Packed { reference_value, binary_scale_factor, decimal_scale_factor } => {
            &&& equal(band.reference_value, Number { bits: 0 }) || equal(
                band.reference_value,
                reference_value,
            )
            &&& band.binary_scale == 0 || band.binary_scale == binary_scale_factor as i8
            &&& band.decimal_scale == 0 || band.decimal_scale == decimal_scale_factor as i8
        },
        Scaling::Levels { decimal_scale_factor } => band.decimal_scale == 0 || band.decimal_scale
            == decimal_scale_factor,
    }
}

/// The band has the factors, and is else as it was.
pub open spec fn is_scaled(before: BandSpec, after: BandSpec, scaling: Scaling) -> bool {
    &&& after.name@ == before.name@
    &&& after.max == before.max
    &&& after.min == before.min
    &&& match scaling {
        Scaling::Packed { reference_value, binary_scale_factor, decimal_scale_factor } => {
            &&& after.reference_value == reference_value
            &&& after.binary_scale == binary_scale_factor as i8
            &&& after.decimal_scale == decimal_scale_factor as i8
        },
        Scaling::Levels { decimal_scale_factor } => {
            &&& after.reference_value == (Number { bits: 0 })
            &&& after.binary_scale == 0
            &&& after.decimal_scale == decimal_scale_factor
        },
    }
}

/// The products with a changed one.
pub open spec fn only_changed(
    before: Seq<(GpvProductIdentifier, ProductData)>,
    after: Seq<(GpvProductIdentifier, ProductData)>,
    place: int,
) -> bool {
    &&& after.len() == before.len()
    &&& after[place].0 == before[place].0
    &&& forall|p: int| 0 <= p < before.len() && p != place ==> after[p] == before[p]
}

/// The bands with a changed one.
pub open spec fn only_band_changed(
    before: Seq<BandSpec>,
    after: Seq<BandSpec>,
    band: int,
) -> bool {
    &&& after.len() == before.len()
    &&& forall|b: int| 0 <= b < before.len() && b != band ==> after[b] == before[b]
}

/// What is wrong with where data lies, if anything is.
pub open spec fn placement_fault(grid: GridDefinition, placement: Placement) -> Option<GribFault> {
    if grid.lo1 < placement.lng_floor || grid.lo2 < placement.lng_floor || placement.x < 0 {
        Some(GribFault::WestOfGrid)
    } else if grid.la1 < placement.lat_floor || grid.la2 < placement.lat_floor || placement.y < 0 {
        Some(GribFault::SouthOfGrid)
    } else if placement.width <= 0 {
        Some(GribFault::NoWidth)
    } else if !placement.aligned {
        Some(GribFault::Misaligned)
    } else {
        None
    }
}

/// The band after some values: only its range has changed.
pub open spec fn is_widened(before: BandSpec, after: BandSpec, values: Seq<i32>) -> bool {
    &&& after.name@ == before.name@
    &&& after.reference_value == before.reference_value
    &&& after.binary_scale == before.binary_scale
    &&& after.decimal_scale == before.decimal_scale
    &&& after.min == least(before.min, values, values.len())
    &&& after.max == greatest(before.max, values, values.len())
}

/// Why a grid is refused, if it is.
pub open spec fn grid_refusal(grid: GridDefinition) -> Option<GribFault> {
    if grid.template_number != 0 {
        Some(GribFault::GridTemplate)
    } else if grid.resolution_and_component_flags != 0x30 {
        Some(GribFault::GridFlags)
    } else if grid.scanning_mode != 0 && grid.scanning_mode != 64 {
        Some(GribFault::ScanningMode)
    } else {
        None
    }
}

/// The bytes that a bitmap takes up, and the bitmap that holds from then on.
pub open spec fn bitmap_read(
    indicator: u8,
    bytes: Seq<u8>,
    grid: Option<GridDefinition>,
    before: Option<Seq<bool>>,
) -> Result<(int, Option<Seq<bool>>), GribFault> {
    if indicator == 254 {
        Ok((0, before))
    } else if indicator == 255 {
        Ok((0, None))
    } else if indicator != 0 {
        Err(GribFault::BitmapIndicator)
    } else {
        match grid {
            None => Err(GribFault::NoGrid),
            Some(grid) => {
                let cells = grid.n_i * grid.n_j;
                if cells > usize::MAX - 7 {
                    Err(GribFault::TooManyCells)
                } else if bytes.len() < bytes_for(cells) {
                    Err(GribFault::TruncatedBitmap)
                } else {
                    Ok((bytes_for(cells), Some(bits_of(bytes, cells as nat))))
                }
            },
        }
    }
}

impl GridSquareMessageReader {
    /// The last identification.
    pub open spec fn identification(self) -> Option<Identification> {
        self.ids
    }

    /// The last grid.
    pub open spec fn grid_definition(self) -> Option<GridDefinition> {
        self.grid
    }

    /// The place of the current product.
    pub open spec fn current_product(self) -> Option<int> {
        match self.current {
            Some(place) => Some(place as int),
            None => None,
        }
    }

    /// The current band.
    pub open spec fn current_band(self) -> u8 {
        self.band
    }

    /// The bits of the current bitmap, where there is one.
    pub open spec fn current_bitmap(self) -> Option<Seq<bool>> {
        bitmap_bits(self.bitmap)
    }

    /// No product occurs twice, the current one is among them, and no kind has two latest times.
    pub open spec fn well_formed(self) -> bool {
        &&& forall|p: int, q: int|
            0 <= p < q < self.products@.len() ==> (#[trigger] self.products@[p]).0.key() != (
            #[trigger] self.products@[q]).0.key()
        &&& self.current_product() matches Some(place) ==> 0 <= place < self.products@.len()
        &&& self.grid_definition() matches Some(grid) ==> grid.scanning_mode == 0
            || grid.scanning_mode == 64
        &&& distinct_kinds(time_views(self.latest_reference_times@))
    }

    /// Nothing but the products differs.
    pub open spec fn same_but_products(self, other: GridSquareMessageReader) -> bool {
        &&& self.identification() == other.identification()
        &&& self.grid_definition() == other.grid_definition()
        &&& self.current_product() == other.current_product()
        &&& self.current_band() == other.current_band()
        &&& self.current_bitmap() == other.current_bitmap()
        &&& self.latest_reference_times@ == other.latest_reference_times@
    }

    /// A reader that has read nothing.
    pub fn new() -> (reader: GridSquareMessageReader)
        ensures
            reader.well_formed(),
            reader.identification() is None,
            reader.grid_definition() is None,
            reader.current_product() is None,
            reader.current_band() == 0,
            reader.current_bitmap() is None,
            reader.products@.len() == 0,
            reader.latest_reference_times@.len() == 0,
    {
        GridSquareMessageReader {
            ids: None,
            grid: None,
            current: None,
            band: 0,
            bitmap: None,
            products: Vec::new(),
            latest_reference_times: Vec::new(),
        }
    }

    /// Takes up when the data was made. Only operational data is read.
    pub fn handle_identification(&mut self, ids: Identification) -> (result: Result<(), GribFault>)
        requires
            old(self).well_formed(),
        ensures
            final(self).well_formed(),
            result == (if ids.production_status == 0 {
                Ok::<(), GribFault>(())
            } else {
                Err(GribFault::NotOperational)
            }),
            result is Err ==> *final(self) == *old(self),
            result is Ok ==> {
                &&& final(self).identification() == Some(ids)
                &&& final(self).grid_definition() == old(self).grid_definition()
                &&& final(self).current_product() == old(self).current_product()
                &&& final(self).current_band() == old(self).current_band()
                &&& final(self).current_bitmap() == old(self).current_bitmap()
                &&& final(self).products == old(self).products
                &&& final(self).latest_reference_times == old(self).latest_reference_times
            },
    {
        if ids.production_status != 0 {
            return Err(GribFault::NotOperational);
        }
        self.ids = Some(ids);
        Ok(())
    }

    /// Takes up where the data lies.
    pub fn handle_grid_definition(&mut self, grid: GridDefinition) -> (result: Result<
        (),
        GribFault,
    >)
        requires
            old(self).well_formed(),
        ensures
            final(self).well_formed(),
            result == (if grid.template_number != 0 {
                Err::<(), GribFault>(GribFault::GridTemplate)
            } else if grid.resolution_and_component_flags != 0x30 {
                Err(GribFault::GridFlags)
            } else if grid.scanning_mode != 0 && grid.scanning_mode != 64 {
                Err(GribFault::ScanningMode)
            } else {
                Ok(())
            }),
            match grid_refusal(grid) {
                Some(fault) => result == Err::<(), GribFault>(fault),
                None => result is Ok,
            },
            result is Err ==> *final(self) == *old(self),
            result is Ok ==> {
                &&& final(self).grid_definition() == Some(grid)
                &&& final(self).identification() == old(self).identification()
                &&& final(self).current_product() == old(self).current_product()
                &&& final(self).current_band() == old(self).current_band()
                &&& final(self).current_bitmap() == old(self).current_bitmap()
                &&& final(self).products == old(self).products
                &&& final(self).latest_reference_times == old(self).latest_reference_times
            },
    {
        if grid.template_number != 0 {
            return Err(GribFault::GridTemplate);
        }
        if grid.resolution_and_component_flags != 0x30 {
            return Err(GribFault::GridFlags);
        }
        if grid.scanning_mode != 0 && grid.scanning_mode != 64 {
            return Err(GribFault::ScanningMode);
        }
        self.grid = Some(grid);
        Ok(())
    }

    /// The reference time and the valid time of a product.
    pub fn times(&self, unit: u8, forecast_time: i64) -> (result: Result<(i64, i64), GribFault>)
        requires
            -0x8000_0000 <= forecast_time <= 0xffff_ffff,
        ensures
            match (result, product_times(self.identification(), unit, forecast_time as int)) {
                (Ok((reference, valid)), Ok(times)) => (reference as int, valid as int) == times,
                (Err(fault), Err(expected)) => fault == expected,
                _ => false,
            },
            result matches Ok((reference, valid)) ==> EARLIEST <= reference <= LATEST && EARLIEST
                <= valid <= LATEST,
    {
        let ids = match self.ids {
            Some(ids) => ids,
            None => return Err(GribFault::NoIdentification),
        };
        let reference = match utc_moment(
            ids.year,
            ids.month,
            ids.day,
            ids.hour,
            ids.minute,
            ids.second,
        ) {
            Some(reference) => reference,
            None => return Err(GribFault::InvalidTime),
        };
        proof {
            lemma_moments_fit(
                ids.year,
                ids.month as int,
                ids.day as int,
                ids.hour as int,
                ids.minute as int,
                ids.second as int,
            );
        }
        let seconds: i64 = match unit {
            0 => 60,
            1 => 3600,
            2 => 86400,
            _ => return Err(GribFault::TimeUnit),
        };
        proof {
            assert(-0x8000_0000 * 86400 <= forecast_time * seconds <= 0xffff_ffff * 86400)
                by (nonlinear_arith)
                requires
                    -0x8000_0000 <= forecast_time <= 0xffff_ffff,
                    60 <= seconds <= 86400,
            ;
        }
        match moment_after(reference, forecast_time * seconds) {
            Some(valid) => Ok((reference, valid)),
            None => Err(GribFault::TimeRange),
        }
    }

    /// Takes up which product and band the data belongs to. A new product begins without data.
    pub fn handle_product_definition(&mut self, id: GpvProductIdentifier, band: u8)
        requires
            old(self).well_formed(),
        ensures
            final(self).well_formed(),
            final(self).identification() == old(self).identification(),
            final(self).grid_definition() == old(self).grid_definition(),
            final(self).current_bitmap() == old(self).current_bitmap(),
            final(self).current_band() == band,
            final(self).current_product() matches Some(place) && final(self).products@[place].0.key()
                == id.key(),
            has_product(old(self).products@, id.key()) ==> final(self).products@
                == old(self).products@,
            !has_product(old(self).products@, id.key()) ==> {
                &&& final(self).products@.len() == old(self).products@.len() + 1
                &&& final(self).products@.drop_last() == old(self).products@
                &&& final(self).products@.last().0 == id
                &&& is_fresh(final(self).products@.last().1, texts(id.kind.bands@))
            },
            time_views(final(self).latest_reference_times@) == with_time(
                time_views(old(self).latest_reference_times@),
                id.kind_path@,
                id.reference_datetime,
            ),
    {
        proof {
            lemma_kinds_stay_distinct(
                time_views(self.latest_reference_times@),
                id.kind_path@,
                id.reference_datetime,
            );
        }
        self.note_time(&id);
        let ghost before = self.products@;
        let count: usize = self.products.len();
        for p in 0..count
            invariant
                count == self.products@.len(),
                self.products@ == before,
                forall|k: int| 0 <= k < p ==> (#[trigger] before[k]).0.key() != id.key(),
                self.well_formed(),
                self.identification() == old(self).identification(),
                self.grid_definition() == old(self).grid_definition(),
                self.current_bitmap() == old(self).current_bitmap(),
                before == old(self).products@,
                time_views(self.latest_reference_times@) == with_time(
                    time_views(old(self).latest_reference_times@),
                    id.kind_path@,
                    id.reference_datetime,
                ),
        {
            if self.products[p].0.same_product(&id) {
                self.current = Some(p);
                self.band = band;
                return;
            }
        }
        let data = fresh_data(&id.kind);
        self.products.push((id, data));
        self.current = Some(count);
        self.band = band;
        proof {
            assert(self.products@.drop_last() =~= before);
        }
    }

    /// Takes up a reference time where it is the latest of its kind.
    fn note_time(&mut self, id: &GpvProductIdentifier)
        ensures
            time_views(final(self).latest_reference_times@) == with_time(
                time_views(old(self).latest_reference_times@),
                id.kind_path@,
                id.reference_datetime,
            ),
            final(self).products == old(self).products,
            final(self).identification() == old(self).identification(),
            final(self).grid_definition() == old(self).grid_definition(),
            final(self).current_product() == old(self).current_product(),
            final(self).current_band() == old(self).current_band(),
            final(self).current_bitmap() == old(self).current_bitmap(),
    {
        let ghost start = time_views(self.latest_reference_times@);
        let mut found = false;
        let count: usize = self.latest_reference_times.len();
        for i in 0..count
            invariant
                count == self.latest_reference_times@.len(),
                count == start.len(),
                start == time_views(old(self).latest_reference_times@),
                found == exists|k: int| 0 <= k < i && (#[trigger] start[k]).0 == id.kind_path@,
                forall|k: int|
                    0 <= k < i ==> (#[trigger] time_views(self.latest_reference_times@)[k]) == (
                    if start[k].0 == id.kind_path@ && id.reference_datetime > start[k].1 {
                        (id.kind_path@, id.reference_datetime)
                    } else {
                        start[k]
                    }),
                forall|k: int|
                    i <= k < count ==> (#[trigger] time_views(self.latest_reference_times@)[k])
                        == start[k],
                self.products == old(self).products,
                self.identification() == old(self).identification(),
                self.grid_definition() == old(self).grid_definition(),
                self.current_product() == old(self).current_product(),
                self.current_band() == old(self).current_band(),
                self.current_bitmap() == old(self).current_bitmap(),
        {
            let ghost before = self.latest_reference_times@;
            proof {
                assert(time_views(before)[i as int] == start[i as int]);
                assert(time_views(before)[i as int] == (before[i as int].0@, before[i as int].1));
            }
            if same(self.latest_reference_times[i].0.as_str(), id.kind_path.as_str()) {
                found = true;
                if id.reference_datetime > self.latest_reference_times[i].1 {
                    let kind = self.latest_reference_times[i].0.clone();
                    self.latest_reference_times.set(i, (kind, id.reference_datetime));
                }
            }
            proof {
                let after = self.latest_reference_times@;
                assert forall|k: int| 0 <= k < count && k != i implies (#[trigger] time_views(
                    after,
                )[k]) == time_views(before)[k] by {
                    assert(after[k] == before[k]);
                }
            }
        }
        if !found {
            let ghost before = self.latest_reference_times@;
            self.latest_reference_times.push((id.kind_path.clone(), id.reference_datetime));
            proof {
                assert(time_views(before) =~= start);
                assert(time_views(self.latest_reference_times@) =~= start.push(
                    (id.kind_path@, id.reference_datetime),
                ));
            }
        } else {
            proof {
                assert(time_views(self.latest_reference_times@) =~= with_time(
                    start,
                    id.kind_path@,
                    id.reference_datetime,
                ));
            }
        }
    }

    /// Takes up how the current band is scaled. One band is scaled in one way throughout.
    pub fn handle_data_representation(&mut self, scaling: Scaling) -> (result: Result<
        (),
        GribFault,
    >)
        requires
            old(self).well_formed(),
        ensures
            final(self).well_formed(),
            final(self).same_but_products(*old(self)),
            match old(self).current_product() {
                None => result == Err::<(), GribFault>(GribFault::NoProduct),
                Some(place) => {
                    let bands = old(self).products@[place].1.band_specs@;
                    let band = old(self).current_band() as int;
                    result == (if band >= bands.len() {
                        Err::<(), GribFault>(GribFault::NoBand)
                    } else if !scales_agree(bands[band], scaling) {
                        Err(GribFault::ScaleMismatch)
                    } else {
                        Ok(())
                    })
                },
            },
            result is Err ==> final(self).products@ == old(self).products@,
            result is Ok ==> {
                let place = old(self).current_product()->Some_0;
                let band = old(self).current_band() as int;
                let before = old(self).products@[place].1;
                let after = final(self).products@[place].1;
                &&& only_changed(old(self).products@, final(self).products@, place)
                &&& after.points@ == before.points@
                &&& only_band_changed(before.band_specs@, after.band_specs@, band)
                &&& is_scaled(before.band_specs@[band], after.band_specs@[band], scaling)
            },
    {
        let place: usize = match self.current {
            Some(place) => place,
            None => return Err(GribFault::NoProduct),
        };
        let band: usize = self.band as usize;
        if band >= self.products[place].1.band_specs.len() {
            return Err(GribFault::NoBand);
        }
        let zero = Number { bits: 0 };
        let spec = &self.products[place].1.band_specs[band];
        let (reference_value, binary_scale, decimal_scale) = match scaling {
            Scaling::Packed { reference_value, binary_scale_factor, decimal_scale_factor } => {
                let binary_scale: i8 = binary_scale_factor as i8;
                let decimal_scale: i8 = decimal_scale_factor as i8;
                let agreed = (spec.reference_value.equals(zero) || spec.reference_value.equals(
                    reference_value,
                )) && (spec.binary_scale == 0 || spec.binary_scale == binary_scale) && (
                spec.decimal_scale == 0 || spec.decimal_scale == decimal_scale);
                if !agreed {
                    return Err(GribFault::ScaleMismatch);
                }
                (reference_value, binary_scale, decimal_scale)
            },
            Scaling::Levels { decimal_scale_factor } => {
                if !(spec.decimal_scale == 0 || spec.decimal_scale == decimal_scale_factor) {
                    return Err(GribFault::ScaleMismatch);
                }
                (zero, 0i8, decimal_scale_factor)
            },
        };
        let scaled = BandSpec {
            name: spec.name.clone(),
            reference_value,
            binary_scale,
            decimal_scale,
            max: spec.max,
            min: spec.min,
        };
        self.products[place].1.band_specs.set(band, scaled);
        Ok(())
    }

    /// Takes up which cells have values: those of a new bitmap, those of the last one, or all.
    /// Says how many bytes of the section the bitmap took up.
    pub fn handle_bitmap(&mut self, indicator: u8, bytes: &Vec<u8>) -> (result: Result<
        usize,
        GribFault,
    >)
        requires
            old(self).well_formed(),
        ensures
            final(self).well_formed(),
            final(self).products == old(self).products,
            final(self).identification() == old(self).identification(),
            final(self).grid_definition() == old(self).grid_definition(),
            final(self).current_product() == old(self).current_product(),
            final(self).current_band() == old(self).current_band(),
            final(self).latest_reference_times == old(self).latest_reference_times,
            result is Err ==> final(self).current_bitmap() == old(self).current_bitmap(),
            match indicator {
                254 => result == Ok::<usize, GribFault>(0) && final(self).current_bitmap()
                    == old(self).current_bitmap(),
                255 => result == Ok::<usize, GribFault>(0) && final(self).current_bitmap() is None,
                0 => match old(self).grid_definition() {
                    None => result == Err::<usize, GribFault>(GribFault::NoGrid),
                    Some(grid) => {
                        let cells = grid.n_i * grid.n_j;
                        if cells > usize::MAX - 7 {
                            result == Err::<usize, GribFault>(GribFault::TooManyCells)
                        } else if bytes@.len() < bytes_for(cells) {
                            result == Err::<usize, GribFault>(GribFault::TruncatedBitmap)
                        } else {
                            &&& result == Ok::<usize, GribFault>(bytes_for(cells) as usize)
                            &&& final(self).current_bitmap() == Some(bits_of(bytes@, cells as nat))
                        }
                    },
                },
                _ => result == Err::<usize, GribFault>(GribFault::BitmapIndicator),
            },
            match bitmap_read(
                indicator,
                bytes@,
                old(self).grid_definition(),
                old(self).current_bitmap(),
            ) {
                Ok((taken, bits)) => {
                    &&& result matches Ok(bytes) && bytes == taken
                    &&& final(self).current_bitmap() == bits
                },
                Err(fault) => result == Err::<usize, GribFault>(fault),
            },
    {
        match indicator {
            0 => {},
            254 => return Ok(0),
            255 => {
                self.bitmap = None;
                return Ok(0);
            },
            _ => return Err(GribFault::BitmapIndicator),
        }
        let grid = match self.grid {
            Some(grid) => grid,
            None => return Err(GribFault::NoGrid),
        };
        proof {
            assert(grid.n_i * grid.n_j <= 0xffff_ffff * 0xffff_ffff) by (nonlinear_arith)
                requires
                    grid.n_i <= 0xffff_ffff,
                    grid.n_j <= 0xffff_ffff,
            ;
            assert(grid.n_i * grid.n_j >= 0) by (nonlinear_arith);
        }
        let cells: u64 = grid.n_i as u64 * grid.n_j as u64;
        if cells > (usize::MAX - 7) as u64 {
            return Err(GribFault::TooManyCells);
        }
        match read_bitmap(bytes, cells as usize) {
            Some((bits, taken)) => {
                self.bitmap = Some(bits);
                Ok(taken)
            },
            None => Err(GribFault::TruncatedBitmap),
        }
    }

    /// Takes up the values of the current band.
    pub fn handle_data(&mut self, values: &Vec<i32>, placement: &Placement) -> (result: Result<
        (),
        GribFault,
    >)
        requires
            old(self).well_formed(),
        ensures
            final(self).well_formed(),
            final(self).same_but_products(*old(self)),
            result is Err ==> final(self).products@ == old(self).products@,
            match (old(self).grid_definition(), old(self).current_product()) {
                (None, _) => result == Err::<(), GribFault>(GribFault::NoGrid),
                (_, None) => result == Err::<(), GribFault>(GribFault::NoProduct),
                (Some(grid), Some(place)) => {
                    let before = old(self).products@[place].1;
                    let after = final(self).products@[place].1;
                    let band = old(self).current_band() as int;
                    match placement_fault(grid, *placement) {
                        Some(fault) => result == Err::<(), GribFault>(fault),
                        None => if band >= before.band_specs@.len() {
                            result == Err::<(), GribFault>(GribFault::NoBand)
                        } else {
                            exists|layout: Layout|
                                {
                                    &&& is_layout(
                                        layout,
                                        grid,
                                        *placement,
                                        old(self).current_band(),
                                    )
                                    &&& match #[trigger] scanned(
                                        layout,
                                        old(self).current_bitmap(),
                                        values@,
                                        (grid.n_i * grid.n_j) as nat,
                                    ) {
                                        None => result == Err::<(), GribFault>(
                                            GribFault::TooFewValues,
                                        ),
                                        Some((points, _)) => {
                                            &&& result is Ok
                                            &&& only_changed(
                                                old(self).products@,
                                                final(self).products@,
                                                place,
                                            )
                                            &&& after.points@ == before.points@ + points
                                            &&& only_band_changed(
                                                before.band_specs@,
                                                after.band_specs@,
                                                band,
                                            )
                                            &&& is_widened(
                                                before.band_specs@[band],
                                                after.band_specs@[band],
                                                values@,
                                            )
                                        },
                                    }
                                }
                        },
                    }
                },
            },
            result is Ok ==> takes_data(*old(self), *final(self), values@, *placement),
    {
        let grid = match self.grid {
            Some(grid) => grid,
            None => return Err(GribFault::NoGrid),
        };
        let place: usize = match self.current {
            Some(place) => place,
            None => return Err(GribFault::NoProduct),
        };
        if grid.lo1 < placement.lng_floor || grid.lo2 < placement.lng_floor || placement.x < 0 {
            return Err(GribFault::WestOfGrid);
        }
        if grid.la1 < placement.lat_floor || grid.la2 < placement.lat_floor || placement.y < 0 {
            return Err(GribFault::SouthOfGrid);
        }
        if placement.width <= 0 {
            return Err(GribFault::NoWidth);
        }
        if !placement.aligned {
            return Err(GribFault::Misaligned);
        }
        let band: usize = self.band as usize;
        if band >= self.products[place].1.band_specs.len() {
            return Err(GribFault::NoBand);
        }
        let power: u8 = log_of(placement.width as u32);
        proof {
            lemma_mod_bound(placement.x as int, placement.width as int);
            lemma_mod_bound(placement.y as int, placement.width as int);
            lemma_mod_decreases(placement.x as nat, placement.width as nat);
            lemma_mod_decreases(placement.y as nat, placement.width as nat);
        }
        let x_first: u32 = (placement.x - placement.x % placement.width) as u32;
        let y_first: u32 = (placement.y - placement.y % placement.width) as u32;
        let ghost layout = Layout {
            x_first: x_first as int,
            y_first: y_first as int,
            width: pow2(power as nat) as int,
            n_i: grid.n_i as int,
            downward: grid.scanning_mode == 0,
            band: self.band,
            power,
        };
        proof {
            assert(is_layout(layout, grid, *placement, self.band));
        }
        let scan_result = scan(x_first, y_first, &grid, self.band, power, &self.bitmap, values);
        let mut points = match scan_result {
            Some(points) => points,
            None => return Err(GribFault::TooFewValues),
        };
        let spec = &self.products[place].1.band_specs[band];
        let mut min: Option<i32> = spec.min;
        let mut max: Option<i32> = spec.max;
        let ghost (old_min, old_max) = (min, max);
        for i in 0..values.len()
            invariant
                min == least(old_min, values@, i as nat),
                max == greatest(old_max, values@, i as nat),
        {
            let value: i32 = values[i];
            if value != i32::MIN {
                min = match min {
                    Some(low) => if value < low {
                        Some(value)
                    } else {
                        Some(low)
                    },
                    None => Some(value),
                };
                max = match max {
                    Some(high) => if value > high {
                        Some(value)
                    } else {
                        Some(high)
                    },
                    None => Some(value),
                };
            }
        }
        let widened = BandSpec {
            name: spec.name.clone(),
            reference_value: spec.reference_value,
            binary_scale: spec.binary_scale,
            decimal_scale: spec.decimal_scale,
            max,
            min,
        };
        self.products[place].1.band_specs.set(band, widened);
        self.products[place].1.points.append(&mut points);
        Ok(())
    }
}

/// The layout is that of data with the placement on the grid: the first cell is moved back to a
/// cell of the data's own width, and neighbouring cells are a power of two apart.
pub open spec fn is_layout(
    layout: Layout,
    grid: GridDefinition,
    placement: Placement,
    band: u8,
) -> bool {
    &&& layout.x_first == placement.x - placement.x % placement.width
    &&& layout.y_first == placement.y - placement.y % placement.width
    &&& is_log(layout.power as nat, placement.width as int)
    &&& layout.width == pow2(layout.power as nat)
    &&& layout.n_i == grid.n_i
    &&& layout.downward == (grid.scanning_mode == 0)
    &&& layout.band == band
}

/// The data of a product of which nothing has been read.
fn fresh_data(kind: &ProductKind) -> (data: ProductData)
    ensures
        is_fresh(data, texts(kind.bands@)),
{
    let mut band_specs: Vec<BandSpec> = Vec::new();
    for b in 0..kind.bands.len()
        invariant
            band_specs@.len() == b,
            forall|k: int|
                0 <= k < b ==> is_fresh_band(#[trigger] band_specs@[k], texts(kind.bands@)[k]),
    {
        band_specs.push(
            BandSpec {
                name: kind.bands[b].clone(),
                reference_value: Number { bits: 0 },
                binary_scale: 0,
                decimal_scale: 0,
                max: None,
                min: None,
            },
        );
    }
    ProductData { points: Vec::new(), band_specs }
}

/// The identifier is that of the storm area of a typhoon.
pub open spec fn is_storm(id: GpvProductIdentifier, times: (i64, i64), tc_number: u64) -> bool {
    &&& id.reference_datetime == times.0
    &&& id.datetime == times.1
    &&& id.generating_process == GeneratingProcessType::Forecast
    &&& id.surface@ == Seq::<char>::empty()
    &&& id.ensemble is None
    &&& id.variant matches Some(variant) && variant@ == "TC"@ + numeral(tc_number as nat)
}

/// The identifier of the storm area of a typhoon, and its band.
pub fn typhoon_storm(
    kind: ProductKind,
    path: String,
    kind_path: String,
    times: (i64, i64),
    background_process: u8,
    tc_number: u64,
) -> (result: Result<(GpvProductIdentifier, u8), GribFault>)
    ensures
        match result {
            Err(fault) => background_process != 170 && fault == GribFault::TyphoonProcess,
            Ok((id, band)) => {
                &&& background_process == 170
                &&& band == 0
                &&& id.kind == kind
                &&& id.path == path
                &&& id.kind_path == kind_path
                &&& id.reference_datetime == times.0
                &&& id.datetime == times.1
                &&& id.generating_process == GeneratingProcessType::Forecast
                &&& id.surface@ == Seq::<char>::empty()
                &&& id.ensemble is None
                &&& id.variant matches Some(variant) && variant@ == "TC"@ + numeral(
                    tc_number as nat,
                )
            },
        },
        result matches Ok((id, band)) ==> is_storm(id, times, tc_number) && band == 0,
{
    if background_process != 170 {
        return Err(GribFault::TyphoonProcess);
    }
    let mut variant = "TC".to_owned();
    variant.append(decimal(tc_number).as_str());
    Ok(
        (
            GpvProductIdentifier {
                kind,
                reference_datetime: times.0,
                datetime: times.1,
                generating_process: GeneratingProcessType::Forecast,
                surface: String::new(),
                ensemble: None,
                variant: Some(variant),
                path,
                kind_path,
            },
            0,
        ),
    )
}

// ---------------------------------------------------------------------------
// What is read of the data
// ---------------------------------------------------------------------------

/// The cell has a value of its own: there is no bitmap, or its bit is set.
pub open spec fn is_given(bitmap: Option<Seq<bool>>, k: int) -> bool {
    bitmap matches Some(bits) ==> bits[k]
}

/// How many of the first `k` cells have a value of their own.
pub open spec fn given_before(bitmap: Option<Seq<bool>>, k: nat) -> nat
    decreases k,
{
    if k == 0 {
        0
    } else if is_given(bitmap, k - 1) {
        given_before(bitmap, (k - 1) as nat) + 1
    } else {
        given_before(bitmap, (k - 1) as nat)
    }
}

/// The cell has a value of its own, and that is none that stands for a missing one.
pub open spec fn is_valued(bitmap: Option<Seq<bool>>, values: Seq<i32>, k: int) -> bool {
    is_given(bitmap, k) && values[given_before(bitmap, k as nat) as int] != i32::MIN
}

/// How many of the first `k` cells have a value that is not missing.
pub open spec fn valued_before(bitmap: Option<Seq<bool>>, values: Seq<i32>, k: nat) -> nat
    decreases k,
{
    if k == 0 {
        0
    } else if is_valued(bitmap, values, k - 1) {
        valued_before(bitmap, values, (k - 1) as nat) + 1
    } else {
        valued_before(bitmap, values, (k - 1) as nat)
    }
}

proof fn lemma_scanned(layout: Layout, bitmap: Option<Seq<bool>>, values: Seq<i32>, n: nat)
    ensures
        scanned(layout, bitmap, values, n) is Some <==> (bitmap matches Some(bits) ==> n
            <= bits.len()) && given_before(bitmap, n) <= values.len(),
        scanned(layout, bitmap, values, n) matches Some((points, used)) ==> {
            &&& used == given_before(bitmap, n)
            &&& points.len() == valued_before(bitmap, values, n)
        },
    decreases n,
{
    if n > 0 {
        lemma_scanned(layout, bitmap, values, (n - 1) as nat);
    }
}

proof fn lemma_scanned_point(
    layout: Layout,
    bitmap: Option<Seq<bool>>,
    values: Seq<i32>,
    n: nat,
    k: int,
)
    requires
        scanned(layout, bitmap, values, n) is Some,
        0 <= k < n,
        is_valued(bitmap, values, k),
    ensures
        valued_before(bitmap, values, k as nat) < scanned(layout, bitmap, values, n)->Some_0.0.len(),
        scanned(layout, bitmap, values, n)->Some_0.0[valued_before(
            bitmap,
            values,
            k as nat,
        ) as int] == point_of(layout, k, values[given_before(bitmap, k as nat) as int]),
    decreases n,
{
    let m = (n - 1) as nat;
    lemma_scanned(layout, bitmap, values, n);
    lemma_scanned(layout, bitmap, values, m);
    if k < m {
        lemma_scanned_point(layout, bitmap, values, m, k);
    }
}

/// The cells of a data section that have a value make the points, one for each, in their order: the
/// cell in a column and row takes the next value that is not taken by a cell before it, and lies so
/// many widths from the first cell.
pub proof fn law_cells_with_values_make_points(
    layout: Layout,
    bitmap: Option<Seq<bool>>,
    values: Seq<i32>,
    n: nat,
    column: int,
    row: int,
)
    requires
        scanned(layout, bitmap, values, n) is Some,
        0 <= column < layout.n_i,
        0 <= row,
        row * layout.n_i + column < n,
        is_valued(bitmap, values, row * layout.n_i + column),
    ensures
        ({
            let k = row * layout.n_i + column;
            let points = scanned(layout, bitmap, values, n)->Some_0.0;
            let place = valued_before(bitmap, values, k as nat) as int;
            &&& 0 <= k
            &&& place < points.len() == valued_before(bitmap, values, n)
            &&& points[place].value == values[given_before(bitmap, k as nat) as int]
            &&& points[place].band_idx == layout.band
            &&& points[place].point_power == layout.power
            &&& points[place].x == (layout.x_first + column * layout.width) % 0x1_0000
            &&& points[place].y == (if layout.downward {
                layout.y_first - row * layout.width
            } else {
                layout.y_first + row * layout.width
            }) % 0x1_0000
        }),
{
    let k = row * layout.n_i + column;
    assert(0 <= row * layout.n_i) by (nonlinear_arith)
        requires
            0 <= row,
            0 < layout.n_i,
    ;
    lemma_scanned(layout, bitmap, values, n);
    lemma_scanned_point(layout, bitmap, values, n, k);
    lemma_fundamental_div_mod_converse(k, layout.n_i, row, column);
}

/// The point at a place has the value of the cell with as many valued cells before it.
pub open spec fn comes_from_a_cell(
    bitmap: Option<Seq<bool>>,
    values: Seq<i32>,
    n: nat,
    place: int,
    value: i32,
) -> bool {
    exists|k: int|
        {
            &&& 0 <= k < n
            &&& #[trigger] is_valued(bitmap, values, k)
            &&& valued_before(bitmap, values, k as nat) == place
            &&& value == values[given_before(bitmap, k as nat) as int]
        }
}

/// There are no other points, and there is a result exactly where the bits and the values last for
/// all cells.
pub proof fn law_points_come_from_cells(
    layout: Layout,
    bitmap: Option<Seq<bool>>,
    values: Seq<i32>,
    n: nat,
)
    ensures
        scanned(layout, bitmap, values, n) is Some <==> (bitmap matches Some(bits) ==> n
            <= bits.len()) && given_before(bitmap, n) <= values.len(),
        scanned(layout, bitmap, values, n) matches Some((points, _)) ==> forall|i: int|
            0 <= i < points.len() ==> comes_from_a_cell(
                bitmap,
                values,
                n,
                i,
                (#[trigger] points[i]).value,
            ),
{
    lemma_scanned(layout, bitmap, values, n);
    if let Some((points, _)) = scanned(layout, bitmap, values, n) {
        assert forall|i: int| 0 <= i < points.len() implies comes_from_a_cell(
            bitmap,
            values,
            n,
            i,
            (#[trigger] points[i]).value,
        ) by {
            let k = lemma_nth_valued(bitmap, values, n, i);
            lemma_scanned_point(layout, bitmap, values, n, k);
        }
    }
}

proof fn lemma_nth_valued(bitmap: Option<Seq<bool>>, values: Seq<i32>, n: nat, i: int) -> (k: int)
    requires
        0 <= i < valued_before(bitmap, values, n),
    ensures
        0 <= k < n,
        is_valued(bitmap, values, k),
        valued_before(bitmap, values, k as nat) == i,
    decreases n,
{
    let m = (n - 1) as nat;
    if i < valued_before(bitmap, values, m) {
        lemma_nth_valued(bitmap, values, m, i)
    } else {
        m as int
    }
}

/// The value is the range's own, or one of some values that is not missing.
pub open spec fn is_among(start: Option<i32>, values: Seq<i32>, value: i32) -> bool {
    start == Some(value) || value != i32::MIN && values.contains(value)
}

proof fn lemma_extremes(start: Option<i32>, values: Seq<i32>, n: nat)
    requires
        n <= values.len(),
    ensures
        least(start, values, n) matches Some(low) ==> is_among(start, values, low),
        greatest(start, values, n) matches Some(high) ==> is_among(start, values, high),
        start matches Some(value) ==> {
            &&& least(start, values, n) matches Some(low) && low <= value
            &&& greatest(start, values, n) matches Some(high) && value <= high
        },
    decreases n,
{
    if n > 0 {
        lemma_extremes(start, values, (n - 1) as nat);
        assert(values.contains(values[n - 1]));
    }
}

/// The range of a band after some values reaches from the least to the greatest of all that the band
/// has had: no value lies outside it, and each end is a value. Missing values have no part in it.
pub proof fn law_ranges_hold_the_values(before: BandSpec, after: BandSpec, values: Seq<i32>)
    requires
        is_widened(before, after, values),
    ensures
        forall|i: int|
            0 <= i < values.len() && (#[trigger] values[i]) != i32::MIN ==> {
                &&& after.min matches Some(low) && low <= values[i]
                &&& after.max matches Some(high) && values[i] <= high
            },
        before.min matches Some(value) ==> after.min matches Some(low) && low <= value,
        before.max matches Some(value) ==> after.max matches Some(high) && value <= high,
        after.min matches Some(low) ==> is_among(before.min, values, low),
        after.max matches Some(high) ==> is_among(before.max, values, high),
{
    lemma_extremes(before.min, values, values.len());
    lemma_extremes(before.max, values, values.len());
    assert forall|i: int| 0 <= i < values.len() && (#[trigger] values[i]) != i32::MIN implies {
        &&& after.min matches Some(low) && low <= values[i]
        &&& after.max matches Some(high) && values[i] <= high
    } by {
        law_extremes_bound_the_values(before.min, values, values.len(), i);
        law_extremes_bound_the_values(before.max, values, values.len(), i);
    }
}

/// A band takes up each factor in its own place, as far as it is an 8-bit integer, and keeps its
/// name and range; a table of levels has a decimal factor alone. The same factors agree with it
/// afterwards, and other ones than zero do not.
pub proof fn law_bands_keep_their_factors(before: BandSpec, after: BandSpec, scaling: Scaling)
    requires
        is_scaled(before, after, scaling),
    ensures
        after.name@ == before.name@,
        after.min == before.min,
        after.max == before.max,
        scaling matches Scaling::Packed {
            reference_value,
            binary_scale_factor,
            decimal_scale_factor,
        } ==> {
            &&& after.reference_value == reference_value
            &&& -128 <= binary_scale_factor <= 127 ==> after.binary_scale == binary_scale_factor
            &&& -128 <= decimal_scale_factor <= 127 ==> after.decimal_scale == decimal_scale_factor
        },
        scaling matches Scaling::Levels { decimal_scale_factor } ==> {
            &&& after.reference_value == (Number { bits: 0 })
            &&& after.binary_scale == 0
            &&& after.decimal_scale == decimal_scale_factor
        },
        forall|other: i8|
            scales_agree(after, (Scaling::Levels { decimal_scale_factor: other }))
                <==> after.decimal_scale == 0 || after.decimal_scale == other,
{
}

/// The product looks so many units ahead of the moment of the identification, and the unit is a
/// minute, an hour or a day.
pub proof fn law_products_look_so_far_ahead(ids: Identification, unit: u8, forecast_time: int)
    ensures
        product_times(Some(ids), unit, forecast_time) matches Ok((reference, valid)) ==> {
            &&& reference_of(ids) == Some(reference)
            &&& unit == 0 ==> valid - reference == forecast_time * 60
            &&& unit == 1 ==> valid - reference == forecast_time * 3600
            &&& unit == 2 ==> valid - reference == forecast_time * 86400
            &&& unit <= 2
        },
        unit > 2 ==> product_times(Some(ids), unit, forecast_time) is Err,
        product_times(None, unit, forecast_time) is Err,
{
}

/// The latest reference time of a kind is the latest of those that came, and no other kind's changes
/// with it.
pub proof fn law_the_latest_time_stays(
    times: Seq<(Seq<char>, i64)>,
    kind: Seq<char>,
    time: i64,
    other: Seq<char>,
    old: i64,
)
    requires
        distinct_kinds(times),
    ensures
        exists|i: int|
            {
                &&& 0 <= i < with_time(times, kind, time).len()
                &&& (#[trigger] with_time(times, kind, time)[i]).0 == kind
                &&& with_time(times, kind, time)[i].1 >= time
                &&& with_time(times, kind, time)[i].1 == time || times.contains(
                    (kind, with_time(times, kind, time)[i].1),
                )
            },
        times.contains((kind, old)) ==> exists|i: int|
            {
                &&& 0 <= i < with_time(times, kind, time).len()
                &&& (#[trigger] with_time(times, kind, time)[i]).0 == kind
                &&& with_time(times, kind, time)[i].1 >= old
            },
        other != kind ==> (times.contains((other, old)) <==> with_time(
            times,
            kind,
            time,
        ).contains((other, old))),
        distinct_kinds(with_time(times, kind, time)),
{
    let after = with_time(times, kind, time);
    lemma_kinds_stay_distinct(times, kind, time);
    if exists|i: int| 0 <= i < times.len() && (#[trigger] times[i]).0 == kind {
        let i = choose|i: int| 0 <= i < times.len() && (#[trigger] times[i]).0 == kind;
        assert(after[i].0 == kind);
        assert(times[i] == (kind, times[i].1));
        assert(times.contains((kind, times[i].1)));
    } else {
        assert(after[times.len() as int] == (kind, time));
    }
    if times.contains((kind, old)) {
        let i = choose|i: int| 0 <= i < times.len() && times[i] == (kind, old);
        assert(times[i].0 == kind);
        assert(after[i].0 == kind && after[i].1 >= old);
    }
    if other != kind {
        if times.contains((other, old)) {
            let i = choose|i: int| 0 <= i < times.len() && times[i] == (other, old);
            assert(after[i] == (other, old));
        }
        if after.contains((other, old)) {
            let i = choose|i: int| 0 <= i < after.len() && after[i] == (other, old);
            assert(i < times.len());
            assert(times[i] == (other, old));
        }
    }
}

/// The cells of a data section are a power of two apart, the greatest that is no more than the width
/// of its cells. The first one lies at the column and row of the placement, moved back to a multiple
/// of that width; rows run towards smaller numbers in scanning mode 0 alone.
pub proof fn law_layouts_follow_the_grid(
    layout: Layout,
    grid: GridDefinition,
    placement: Placement,
    band: u8,
)
    requires
        is_layout(layout, grid, placement, band),
        placement_fault(grid, placement) is None,
    ensures
        layout.width <= placement.width < 2 * layout.width,
        layout.width == pow2(layout.power as nat),
        layout.x_first <= placement.x < layout.x_first + placement.width,
        layout.x_first % placement.width as int == 0,
        layout.y_first <= placement.y < layout.y_first + placement.width,
        layout.y_first % placement.width as int == 0,
        0 <= layout.x_first && 0 <= layout.y_first,
        layout.n_i == grid.n_i,
        layout.band == band,
        layout.downward <==> grid.scanning_mode == 0,
{
    let width = placement.width as int;
    let (x, y) = (placement.x as int, placement.y as int);
    lemma_pow2_unfold((layout.power + 1) as nat);
    lemma_mod_bound(x, width);
    lemma_mod_bound(y, width);
    lemma_fundamental_div_mod(x, width);
    lemma_fundamental_div_mod(y, width);
    lemma_mul_is_commutative(x / width, width);
    lemma_mul_is_commutative(y / width, width);
    lemma_mod_multiples_basic(x / width, width);
    lemma_mod_multiples_basic(y / width, width);
    lemma_mod_decreases(x as nat, width as nat);
    lemma_mod_decreases(y as nat, width as nat);
}

/// Data is refused where it starts west or south of its grid, where its cells have no width, or
/// where they do not fall on those of the grid, and nowhere else.
pub proof fn law_placed_data_is_taken(grid: GridDefinition, placement: Placement)
    ensures
        placement_fault(grid, placement) is None <==> {
            &&& placement.lng_floor <= grid.lo1 && placement.lng_floor <= grid.lo2
            &&& placement.lat_floor <= grid.la1 && placement.lat_floor <= grid.la2
            &&& 0 <= placement.x && 0 <= placement.y
            &&& 0 < placement.width
            &&& placement.aligned
        },
        placement_fault(grid, placement) == Some(GribFault::WestOfGrid) <==> grid.lo1
            < placement.lng_floor || grid.lo2 < placement.lng_floor || placement.x < 0,
{
}

/// The number of a template tells what its products bring along.
pub proof fn law_templates_have_numbers(number: u16)
    ensures
        known_template(number) == Some(Template::Plain) <==> number == 0 || number == 50000,
        known_template(number) == Some(Template::Member) <==> number == 1,
        known_template(number) == Some(Template::OverTime) <==> number == 8 || 50008 <= number
            <= 50009 || 50011 <= number <= 50012,
        known_template(number) == Some(Template::MemberOverTime) <==> number == 11,
        known_template(number) == Some(Template::TyphoonStorm) <==> number == 50031,
{
}

/// A new product begins with a band for each of its names, in their order, and nothing in any of
/// them: no points, no range, and factors that change no value.
pub proof fn law_new_products_are_empty(data: ProductData, names: Seq<Seq<char>>, b: int)
    requires
        is_fresh(data, names),
        0 <= b < names.len(),
    ensures
        data.points@.len() == 0,
        data.band_specs@.len() == names.len(),
        data.band_specs@[b].name@ == names[b],
        data.band_specs@[b].min is None && data.band_specs@[b].max is None,
        data.band_specs@[b].reference_value.units() == 0,
        data.band_specs@[b].binary_scale == 0 && data.band_specs@[b].decimal_scale == 0,
{
    assert(is_fresh_band(data.band_specs@[b], names[b]));
    assert((Number { bits: 0 }).units() == 0);
}

/// Data is packed simply, in a complex way or in runs, as the number of its template says.
pub proof fn law_packings_have_numbers(number: u16)
    ensures
        packing_of(number) == Some(Packing::Simple) <==> number == 0,
        packing_of(number) == Some(Packing::Complex) <==> number == 3,
        packing_of(number) == Some(Packing::RunLength) <==> number == 200,
{
}

/// A grid is taken exactly where it is one of longitude and latitude with given increments, whose
/// rows run southward or northward and whose cells run eastward.
pub proof fn law_good_grids_are_taken(grid: GridDefinition)
    ensures
        grid_refusal(grid) is None <==> {
            &&& grid.template_number == 0
            &&& grid.resolution_and_component_flags == 48
            &&& grid.scanning_mode == 0 || grid.scanning_mode == 64
        },
        grid.template_number != 0 ==> grid_refusal(grid) == Some(GribFault::GridTemplate),
{
}

/// A bitmap section brings a bitmap of its own, keeps the last one, or says that there is none. One
/// of its own has a bit for each cell of the grid, the first in the highest bit of the first byte,
/// and takes up as many bytes as these need.
pub proof fn law_bitmaps_are_taken_up(
    indicator: u8,
    bytes: Seq<u8>,
    grid: GridDefinition,
    before: Option<Seq<bool>>,
    k: int,
)
    ensures
        bitmap_read(254, bytes, Some(grid), before) == Ok::<
            (int, Option<Seq<bool>>),
            GribFault,
        >((0, before)),
        bitmap_read(255, bytes, Some(grid), before) == Ok::<
            (int, Option<Seq<bool>>),
            GribFault,
        >((0, None)),
        bitmap_read(0, bytes, Some(grid), before) matches Ok((taken, bits)) ==> {
            let cells = grid.n_i * grid.n_j;
            &&& 8 * taken - 8 < cells <= 8 * taken
            &&& taken <= bytes.len()
            &&& bits matches Some(bits) && bits.len() == cells
            &&& 0 <= k < cells && k % 8 == 0 ==> (bits->Some_0[k] <==> bytes[k / 8] >= 128)
            &&& 0 <= k < cells && k % 8 == 7 ==> (bits->Some_0[k] <==> bytes[k / 8] % 2 == 1)
        },
        bitmap_read(0, bytes, Some(grid), before) is Err <==> bytes.len() * 8 < grid.n_i * grid.n_j
            || grid.n_i * grid.n_j > usize::MAX - 7,
        indicator != 0 && indicator != 254 && indicator != 255 ==> bitmap_read(
            indicator,
            bytes,
            Some(grid),
            before,
        ) is Err,
{
    lemma2_to64();
    assert(grid.n_i * grid.n_j >= 0) by (nonlinear_arith);
    let cells = grid.n_i * grid.n_j;
    if 0 <= k < cells {
        assert(bits_of(bytes, cells as nat)[k] == bit_of(bytes, k));
        let byte = bytes[k / 8] as int;
        if k % 8 == 0 {
            assert((7 - k % 8) as nat == 7 && pow2(7) == 128);
            assert(bit_of(bytes, k) == ((byte / 128) % 2 == 1));
        } else if k % 8 == 7 {
            assert((7 - k % 8) as nat == 0 && pow2(0) == 1);
            assert(bit_of(bytes, k) == ((byte / 1) % 2 == 1));
            assert(byte / 1 == byte);
        }
    }
}

/// The storm areas of two typhoons are different products, and so are those of one typhoon for two
/// times; a storm area is a forecast, so that it stays where analyses are skipped.
pub proof fn law_storms_are_told_apart(
    a: GpvProductIdentifier,
    times: (i64, i64),
    m: u64,
    b: GpvProductIdentifier,
    others: (i64, i64),
    n: u64,
)
    requires
        is_storm(a, times, m),
        is_storm(b, others, n),
    ensures
        a.key() == b.key() ==> m == n && times == others,
        a.generating_process != GeneratingProcessType::Analysis,
        a.datetime - a.reference_datetime == times.1 - times.0,
        a.variant matches Some(variant) && variant@.take(2) == "TC"@ && digits_value(
            variant@.skip(2),
        ) == m,
{
    reveal_strlit("TC");
    law_numerals_tell_the_number(m as nat);
    law_numerals_tell_the_number(n as nat);
    let (s, t) = (a.variant->Some_0@, b.variant->Some_0@);
    assert(s.skip(2) =~= numeral(m as nat));
    assert(t.skip(2) =~= numeral(n as nat));
    assert(s.take(2) =~= "TC"@);
}

/// The values of a data section have gone to the current band of the current product.
pub open spec fn takes_data(
    before: GridSquareMessageReader,
    after: GridSquareMessageReader,
    values: Seq<i32>,
    placement: Placement,
) -> bool {
    match (before.grid_definition(), before.current_product()) {
        (Some(grid), Some(place)) => {
            let old_data = before.products@[place].1;
            let new_data = after.products@[place].1;
            let band = before.current_band() as int;
            exists|layout: Layout|
                {
                    &&& is_layout(layout, grid, placement, before.current_band())
                    &&& #[trigger] scanned(
                        layout,
                        before.current_bitmap(),
                        values,
                        (grid.n_i * grid.n_j) as nat,
                    ) matches Some((points, _)) && new_data.points@ == old_data.points@ + points
                    &&& only_changed(before.products@, after.products@, place)
                    &&& only_band_changed(old_data.band_specs@, new_data.band_specs@, band)
                    &&& is_widened(old_data.band_specs@[band], new_data.band_specs@[band], values)
                }
        },
        _ => false,
    }
}

proof fn lemma_scanned_points(layout: Layout, bitmap: Option<Seq<bool>>, values: Seq<i32>, n: nat)
    ensures
        scanned(layout, bitmap, values, n) matches Some((points, used)) ==> used <= values.len()
            && forall|i: int|
            0 <= i < points.len() ==> {
                &&& (#[trigger] points[i]).band_idx == layout.band
                &&& points[i].point_power == layout.power
                &&& points[i].value != i32::MIN
                &&& values.contains(points[i].value)
            },
    decreases n,
{
    if n > 0 {
        lemma_scanned_points(layout, bitmap, values, (n - 1) as nat);
        if let Some((before, used)) = scanned(layout, bitmap, values, (n - 1) as nat) {
            if used < values.len() {
                assert(values.contains(values[used as int]));
            }
        }
    }
}

/// The values of a data section reach the current band of the current product and nothing else: its
/// new points are of that band and have values of the section, none of them missing; its earlier
/// points, its other bands and the other products stay as they are.
pub proof fn law_data_goes_to_its_band(
    before: GridSquareMessageReader,
    after: GridSquareMessageReader,
    values: Seq<i32>,
    placement: Placement,
)
    requires
        takes_data(before, after, values, placement),
    ensures
        before.current_product() is Some,
        ({
            let place = before.current_product()->Some_0;
            let (old_data, new_data) = (before.products@[place].1, after.products@[place].1);
            let count = old_data.points@.len();
            &&& after.products@.len() == before.products@.len()
            &&& forall|p: int|
                0 <= p < before.products@.len() && p != place ==> #[trigger] after.products@[p]
                    == before.products@[p]
            &&& new_data.points@.len() >= count
            &&& forall|i: int|
                0 <= i < count ==> #[trigger] new_data.points@[i] == old_data.points@[i]
            &&& forall|i: int|
                count <= i < new_data.points@.len() ==> {
                    &&& (#[trigger] new_data.points@[i]).band_idx == before.current_band()
                    &&& new_data.points@[i].value != i32::MIN
                    &&& values.contains(new_data.points@[i].value)
                    &&& pow2(new_data.points@[i].point_power as nat) <= placement.width < pow2(
                        new_data.points@[i].point_power as nat + 1,
                    )
                }
            &&& forall|b: int|
                0 <= b < old_data.band_specs@.len() && b != before.current_band()
                    ==> #[trigger] new_data.band_specs@[b] == old_data.band_specs@[b]
        }),
{
    let grid = before.grid_definition()->Some_0;
    let place = before.current_product()->Some_0;
    let (old_data, new_data) = (before.products@[place].1, after.products@[place].1);
    let cells = (grid.n_i * grid.n_j) as nat;
    let layout = choose|layout: Layout|
        {
            &&& is_layout(layout, grid, placement, before.current_band())
            &&& #[trigger] scanned(layout, before.current_bitmap(), values, cells) matches Some(
                (points, _),
            ) && new_data.points@ == old_data.points@ + points
            &&& only_changed(before.products@, after.products@, place)
            &&& only_band_changed(
                old_data.band_specs@,
                new_data.band_specs@,
                before.current_band() as int,
            )
            &&& is_widened(
                old_data.band_specs@[before.current_band() as int],
                new_data.band_specs@[before.current_band() as int],
                values,
            )
        };
    lemma_scanned_points(layout, before.current_bitmap(), values, cells);
    let points = scanned(layout, before.current_bitmap(), values, cells)->Some_0.0;
    let count = old_data.points@.len();
    assert forall|i: int| count <= i < new_data.points@.len() implies {
        &&& (#[trigger] new_data.points@[i]).band_idx == before.current_band()
        &&& new_data.points@[i].value != i32::MIN
        &&& values.contains(new_data.points@[i].value)
        &&& pow2(new_data.points@[i].point_power as nat) <= placement.width < pow2(
            new_data.points@[i].point_power as nat + 1,
        )
    } by {
        assert(new_data.points@[i] == points[i - count]);
    }
}

} // verus!
