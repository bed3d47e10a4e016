//! The data that the conversion works on.
use crate::number::{equal, law_keys_order_values, Number};
use crate::omit::BandOmit;
use crate::products::GpvProductIdentifier;
use crate::quantize::BandQuantize;
use crate::vectors::{
    lemma_kept_are_some, lemma_kept_has, lemma_kept_in_order, lemma_kept_stretch,
};
use vstd::prelude::*;
use vstd::slice::slice_subrange;

verus! {

/// How the values of several cells become one.
#[derive(Clone, Copy, Debug, PartialEq, Eq, Structural)]
pub enum Aggregation {
    Max,
    Min,
    RoughAvg,
    BitOr,
}

/// A band of a product: its name, how its raw values are scaled, and their range so far.
///
/// A raw value `v` stands for `(reference_value + v * 2^binary_scale) * 10^-decimal_scale`.
#[derive(Debug)]
pub struct BandSpec {
    pub name: String,
    pub reference_value: Number,
    pub binary_scale: i8,
    pub decimal_scale: i8,
    pub max: Option<i32>,
    pub min: Option<i32>,
}

/// The grid of a product: its origin in degrees and how many cells there are to a degree.
#[derive(Clone, Copy, Debug)]
pub struct LngLatGrid {
    pub lng_0: Number,
    pub lat_0: Number,
    pub lng_denom: Number,
    pub lat_denom: Number,
}

impl LngLatGrid {
    /// The two grids are equal, number by number.
    pub open spec fn same_as(self, other: LngLatGrid) -> bool {
        &&& equal(self.lng_0, other.lng_0)
        &&& equal(self.lat_0, other.lat_0)
        &&& equal(self.lng_denom, other.lng_denom)
        &&& equal(self.lat_denom, other.lat_denom)
    }

    /// Whether two grids are equal.
    pub fn equals(&self, other: &LngLatGrid) -> (answer: bool)
        ensures
            answer == self.same_as(*other),
    {
        self.lng_0.equals(other.lng_0) && self.lat_0.equals(other.lat_0) && self.lng_denom.equals(
            other.lng_denom,
        ) && self.lat_denom.equals(other.lat_denom)
    }
}

/// An optional value in the space of a plain one: the least `i32` stands for a missing value.
#[derive(Clone, Copy, Debug, PartialEq, Eq, Structural, Ord, Hash)]
pub struct CompactOptI32(pub i32);

impl View for CompactOptI32 {
    type V = Option<i32>;

    open spec fn view(&self) -> Option<i32> {
        if self.0 == i32::MIN {
            None
        } else {
            Some(self.0)
        }
    }
}

impl CompactOptI32 {
    /// The missing value.
    pub fn none() -> (packed: CompactOptI32)
        ensures
            packed == CompactOptI32(i32::MIN),
            packed@ is None,
    {
        CompactOptI32(i32::MIN)
    }

    /// Packs an optional value; the value that stands for a missing one cannot be packed.
    pub fn new(value: Option<i32>) -> (packed: CompactOptI32)
        requires
            value != Some(i32::MIN),
        ensures
            packed@ == value,
    {
        match value {
            Some(value) => CompactOptI32(value),
            None => CompactOptI32::none(),
        }
    }

    /// The value, if it is there.
    pub fn get(self) -> (value: Option<i32>)
        ensures
            value == self@,
    {
        if self.0 == i32::MIN {
            None
        } else {
            Some(self.0)
        }
    }

    /// The value, which must be there.
    pub fn unwrap(self) -> (value: i32)
        requires
            self@ is Some,
        ensures
            self@ == Some(value),
    {
        self.0
    }

    /// The value, or another where it is missing.
    pub fn unwrap_or(self, default: i32) -> (value: i32)
        ensures
            value == (match self@ {
                Some(value) => value,
                None => default,
            }),
    {
        match self.get() {
            Some(value) => value,
            None => default,
        }
    }

    /// What `f` makes of the value; a missing value stays missing.
    pub fn map<F: FnOnce(i32) -> CompactOptI32>(self, f: F) -> (mapped: CompactOptI32)
        requires
            self@ matches Some(value) ==> f.requires((value,)),
        ensures
            self@ is None ==> mapped == CompactOptI32(i32::MIN),
            self@ matches Some(value) ==> f.ensures((value,), mapped),
    {
        match self.get() {
            Some(value) => f(value),
            None => CompactOptI32::none(),
        }
    }
}

impl Default for CompactOptI32 {
    /// Zero, not the missing value.
    fn default() -> (packed: CompactOptI32)
        ensures
            packed@ == Some(0i32),
    {
        CompactOptI32(0)
    }
}

/// A packed value is missing exactly where it is the marker, and packing loses nothing.
pub proof fn law_packing_is_faithful(a: CompactOptI32, b: CompactOptI32)
    ensures
        a@ == b@ <==> a == b,
        a@ != Some(i32::MIN),
{
}

impl PartialOrd for CompactOptI32 {
    fn partial_cmp(&self, other: &CompactOptI32) -> (order: Option<core::cmp::Ordering>) {
        self.0.partial_cmp(&other.0)
    }
}

impl vstd::std_specs::cmp::PartialOrdSpecImpl for CompactOptI32 {
    open spec fn obeys_partial_cmp_spec() -> bool {
        true
    }

    open spec fn partial_cmp_spec(&self, other: &CompactOptI32) -> Option<core::cmp::Ordering> {
        match (self@, other@) {
            (None, None) => Some(core::cmp::Ordering::Equal),
            (None, Some(_)) => Some(core::cmp::Ordering::Less),
            (Some(_), None) => Some(core::cmp::Ordering::Greater),
            (Some(a), Some(b)) => if a < b {
                Some(core::cmp::Ordering::Less)
            } else if a == b {
                Some(core::cmp::Ordering::Equal)
            } else {
                Some(core::cmp::Ordering::Greater)
            },
        }
    }
}

/// The values of one band, cell by cell.
#[derive(Debug)]
pub struct Band {
    pub values: Vec<CompactOptI32>,
}

/// The cells of one tile at the base zoom.
#[derive(Debug)]
pub struct BaseTile {
    pub point_ids: Vec<u32>,
    pub point_powers: Vec<u8>,
    pub bands: Vec<Band>,
}

impl BaseTile {
    /// Every column has an entry for every cell.
    pub open spec fn well_formed(self) -> bool {
        &&& self.point_powers@.len() == self.point_ids@.len()
        &&& self.bands@.len() <= 4
        &&& forall|b: int|
            0 <= b < self.bands@.len() ==> (#[trigger] self.bands@[b]).values@.len()
                == self.point_ids@.len()
    }
}

/// What all tiles of a product have in common.
#[derive(Debug)]
pub struct TilesetSpec {
    pub name: String,
    pub base_z: u8,
    pub grid_spec: LngLatGrid,
    pub aggregation: Aggregation,
    pub band_specs: Vec<BandSpec>,
    pub quantize: Vec<Option<BandQuantize>>,
    pub omit: Vec<Option<BandOmit>>,
    /// West, south, east and north in degrees.
    pub bounds: [Number; 4],
}

/// A product, cut into tiles at the base zoom.
#[derive(Debug)]
pub struct PreparedProduct {
    pub product_id: GpvProductIdentifier,
    pub spec: TilesetSpec,
    pub chunks: Vec<(u64, BaseTile)>,
}

impl PreparedProduct {
    /// The tiles stand in the order of their ids.
    pub open spec fn chunks_in_order(self) -> bool {
        forall|i: int, j: int|
            0 <= i <= j < self.chunks@.len() ==> (#[trigger] self.chunks@[i]).0 <= (
            #[trigger] self.chunks@[j]).0
    }

    /// Some tile has an id in the range.
    pub open spec fn has_chunk(self, begin: u64, end: u64) -> bool {
        exists|i: int|
            0 <= i < self.chunks@.len() && begin <= (#[trigger] self.chunks@[i]).0 < end
    }

    /// The tiles with an id in the range, in their order.
    pub open spec fn chunks_between(self, begin: int, end: int) -> Seq<(u64, BaseTile)> {
        self.chunks@.filter(|chunk: (u64, BaseTile)| begin <= chunk.0 < end)
    }

    /// The number of tiles with an id below a bound, which are the first ones.
    fn count_below(&self, bound: u64) -> (count: usize)
        requires
            self.chunks_in_order(),
        ensures
            count <= self.chunks@.len(),
            forall|i: int| 0 <= i < count ==> (#[trigger] self.chunks@[i]).0 < bound,
            forall|i: int| count <= i < self.chunks@.len() ==> (#[trigger] self.chunks@[i]).0 >= bound,
    {
        let mut low: usize = 0;
        let mut high: usize = self.chunks.len();
        while low < high
            invariant
                low <= high <= self.chunks@.len(),
                self.chunks_in_order(),
                forall|i: int| 0 <= i < low ==> (#[trigger] self.chunks@[i]).0 < bound,
                forall|i: int|
                    high <= i < self.chunks@.len() ==> (#[trigger] self.chunks@[i]).0 >= bound,
            decreases high - low,
        {
            let middle: usize = low + (high - low) / 2;
            if self.chunks[middle].0 < bound {
                low = middle + 1;
            } else {
                high = middle;
            }
        }
        low
    }

    /// Whether some tile has an id from `begin` up to, but not including, `end`.
    pub fn has_chunks_in_range(&self, begin: u64, end: u64) -> (answer: bool)
        requires
            self.chunks_in_order(),
        ensures
            answer == self.has_chunk(begin, end),
    {
        let first = self.count_below(begin);
        first < self.chunks.len() && self.chunks[first].0 < end
    }

    /// The tiles with an id from `begin` up to, but not including, `end`.
    pub fn chunks_in_range(&self, begin: u64, end: u64) -> (found: &[(u64, BaseTile)])
        requires
            self.chunks_in_order(),
        ensures
            found@ == self.chunks_between(begin as int, end as int),
            found@.len() > 0 <==> self.has_chunk(begin, end),
    {
        let first = self.count_below(begin);
        let below_end = self.count_below(end);
        let last: usize = if below_end < first {
            first
        } else {
            below_end
        };
        let found = slice_subrange(self.chunks.as_slice(), first, last);
        proof {
            lemma_kept_stretch(
                self.chunks@,
                |chunk: (u64, BaseTile)| begin <= chunk.0 < end,
                first as int,
                last as int,
            );
            assert(found@ == self.chunks@.subrange(first as int, last as int));
            if found@.len() > 0 {
                assert(begin <= self.chunks@[first as int].0 < end);
            }
        }
        found
    }
}

/// Grids are the same exactly where their origins and their cells to a degree have equal values, in
/// longitude and in latitude; so a grid of finite numbers is the same as itself, and which of two
/// comes first does not matter.
pub proof fn law_same_grids_have_equal_numbers(a: LngLatGrid, b: LngLatGrid)
    requires
        a.lng_0.is_finite() && a.lat_0.is_finite(),
        a.lng_denom.is_finite() && a.lat_denom.is_finite(),
        b.lng_0.is_finite() && b.lat_0.is_finite(),
        b.lng_denom.is_finite() && b.lat_denom.is_finite(),
    ensures
        a.same_as(b) <==> {
            &&& a.lng_0.units() == b.lng_0.units()
            &&& a.lat_0.units() == b.lat_0.units()
            &&& a.lng_denom.units() == b.lng_denom.units()
            &&& a.lat_denom.units() == b.lat_denom.units()
        },
        a.same_as(a),
        a.same_as(b) == b.same_as(a),
{
    law_keys_order_values(a.lng_0, b.lng_0);
    law_keys_order_values(a.lat_0, b.lat_0);
    law_keys_order_values(a.lng_denom, b.lng_denom);
    law_keys_order_values(a.lat_denom, b.lat_denom);
}

/// The tiles of a range are those of the product with a position in the range, all of them and no
/// others, in their order.
pub proof fn law_ranges_find_their_tiles(product: PreparedProduct, begin: int, end: int, i: int, j: int)
    ensures
        0 <= i < product.chunks@.len() && begin <= product.chunks@[i].0 < end ==> exists|k: int|
            0 <= k < product.chunks_between(begin, end).len()
                && #[trigger] product.chunks_between(begin, end)[k] == product.chunks@[i],
        0 <= i < product.chunks_between(begin, end).len() ==> {
            &&& begin <= product.chunks_between(begin, end)[i].0 < end
            &&& exists|k: int|
                0 <= k < product.chunks@.len() && #[trigger] product.chunks@[k]
                    == product.chunks_between(begin, end)[i]
        },
        product.chunks_in_order() && 0 <= i < j < product.chunks_between(begin, end).len()
            ==> product.chunks_between(begin, end)[i].0 <= product.chunks_between(begin, end)[j].0,
{
    let keep = |chunk: (u64, BaseTile)| begin <= chunk.0 < end;
    let found = product.chunks_between(begin, end);
    if 0 <= i < product.chunks@.len() && begin <= product.chunks@[i].0 < end {
        lemma_kept_has(product.chunks@, keep, i);
    }
    if 0 <= i < found.len() {
        lemma_kept_are_some(product.chunks@, keep, i);
    }
    if 0 <= i < j < found.len() {
        lemma_kept_in_order(product.chunks@, keep, i, j);
    }
}

} // verus!
