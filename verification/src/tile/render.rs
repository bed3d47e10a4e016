//! Features with attributes, layers of features, and tiles of layers.
use crate::error::ErrorView;
use crate::model::{BandSpec, CompactOptI32};
use crate::number::{equal, law_keys_order_values, Number};
use crate::quantize::{
    all_classes, is_about, is_integer, law_classes_cover_every_value, lemma_argument_of, list_of,
    resolved, BandQuantize, Classes, QuantizeArg, Reading,
};
use crate::text::texts;
use crate::tile::mvt::{
    are_groups, covered, drawable, encode_shapes, has_group, in_overlay_range,
    lemma_covered_by_a_cell, plain_values, ring_views, shape_words, union_of, united, PixelBox,
    ValueGroup, Values, EXTENT,
};
use crate::tile::points::{law_shown_classes_exist, Entry, Finish};
use crate::tile::render::TagValue::{Double, SInt};
use prost::Message;
use std::io::Write;
use tinymvt::tag::Value;
use tinymvt::vector_tile::tile::{
    Feature as WireFeature, GeomType as WireType, Layer as WireLayer,
};
use tinymvt::vector_tile::Tile;
use vstd::arithmetic::div_mod::lemma_fundamental_div_mod;
use vstd::arithmetic::power2::*;
use vstd::prelude::*;

verus! {

// ---------------------------------------------------------------------------
// Attributes
// ---------------------------------------------------------------------------

/// The value of an attribute.
#[derive(Clone, Copy, Debug, PartialEq, Eq, Structural)]
pub enum TagValue {
    SInt(i64),
    /// A double-precision number.
    Double(Number),
}

/// How the values of a band become attributes.
pub struct BandScale<'a> {
    pub name: &'a str,
    /// The raw values are scaled.
    pub scaling: bool,
    /// Where the band is quantized, its values are classes.
    pub quantize: Option<&'a BandQuantize>,
}

/// The classes of the band, where it has any.
pub open spec fn scale_classes(scale: BandScale) -> Option<Classes> {
    match scale.quantize {
        Some(quantize) => Some(quantize@),
        None => None,
    }
}

/// The attribute of a value: a class emits its output, else a scaled band emits the scaled value
/// and an unscaled band the value itself.
pub open spec fn tag_of(
    scaling: bool,
    classes: Option<Classes>,
    value: i32,
    scaled: Number,
) -> TagValue {
    match classes {
        Some(classes) => {
            let output = classes.outputs[value as int];
            if classes.integral {
                // The greatest output that counts as an integer is 2^63.
                TagValue::SInt(
                    if output.whole() > i64::MAX {
                        i64::MAX
                    } else {
                        output.whole() as i64
                    },
                )
            } else {
                TagValue::Double(output)
            }
        },
        None => if scaling {
            TagValue::Double(scaled)
        } else {
            TagValue::SInt(value as i64)
        },
    }
}

/// All attributes of a band have one type: it is a matter of the band, not of the value.
pub proof fn law_one_type_per_band(
    scaling: bool,
    classes: Option<Classes>,
    a: i32,
    scaled_a: Number,
    b: i32,
    scaled_b: Number,
)
    ensures
        tag_of(scaling, classes, a, scaled_a) is SInt <==> tag_of(
            scaling,
            classes,
            b,
            scaled_b,
        ) is SInt,
        tag_of(scaling, classes, a, scaled_a) is SInt <==> match classes {
            Some(classes) => classes.integral,
            None => !scaling,
        },
{
}

/// The values of a band become attributes in this way.
pub open spec fn is_scale_of(
    scale: BandScale,
    band: BandSpec,
    quantize: Option<BandQuantize>,
) -> bool {
    &&& scale.name@ == band.name@
    &&& scale.scaling == (band.binary_scale != 0 || !equal(
        band.reference_value,
        (Number { bits: 0 }),
    ) || band.decimal_scale != 0)
    &&& match (scale.quantize, quantize) {
        (Some(own), Some(quantize)) => *own == quantize,
        (None, None) => true,
        _ => false,
    }
}

impl<'a> BandScale<'a> {
    /// How the values of a band become attributes.
    pub fn new(band: &'a BandSpec, quantize: Option<&'a BandQuantize>) -> (scale: BandScale<'a>)
        ensures
            scale.name@ == band.name@,
            scale.scaling == (band.binary_scale != 0 || !equal(
                band.reference_value,
                (Number { bits: 0 }),
            )
                || band.decimal_scale != 0),
            scale.quantize == quantize,
            is_scale_of(
                scale,
                *band,
                match quantize {
                    Some(quantize) => Some(*quantize),
                    None => None,
                },
            ),
    {
        let zero = Number { bits: 0 };
        BandScale {
            name: band.name.as_str(),
            scaling: band.binary_scale != 0 || !band.reference_value.equals(zero)
                || band.decimal_scale != 0,
            quantize,
        }
    }

    /// The attribute of a value, given the scaled value.
    pub fn tag_value(&self, value: i32, scaled: Number) -> (tag: TagValue)
        requires
            scale_classes(*self) matches Some(classes) ==> classes.well_formed() && 0 <= value
                < classes.outputs.len(),
        ensures
            tag == tag_of(self.scaling, scale_classes(*self), value, scaled),
    {
        if let Some(quantize) = self.quantize {
            let output = quantize.output(value);
            proof {
                assert(quantize@.outputs[value as int].is_finite());
                if quantize@.integral {
                    assert(is_integer(quantize@.outputs[value as int]));
                }
            }
            return if quantize.integral_outputs() {
                TagValue::SInt(output.to_integer())
            } else {
                TagValue::Double(output)
            };
        }
        if self.scaling {
            TagValue::Double(scaled)
        } else {
            TagValue::SInt(value as i64)
        }
    }
}

/// The attributes of a cell with certain values in the first `n` bands. A missing value gives
/// none.
pub open spec fn attributes(
    scales: Seq<BandScale>,
    values: Values,
    scaled: Seq<Number>,
    n: nat,
) -> Seq<(Seq<char>, TagValue)>
    decreases n,
{
    if n == 0 {
        Seq::empty()
    } else {
        let before = attributes(scales, values, scaled, (n - 1) as nat);
        let scale = scales[n - 1];
        match values[n - 1] {
            None => before,
            Some(value) => before.push(
                (
                    scale.name@,
                    tag_of(scale.scaling, scale_classes(scale), value as i32, scaled[n - 1]),
                ),
            ),
        }
    }
}

// ---------------------------------------------------------------------------
// Dictionaries of attributes
// ---------------------------------------------------------------------------

/// `tinymvt::tag::TagsEncoder`, which is opaque here.
#[verifier::external_type_specification]
#[verifier::external_body]
pub struct ExTagsEncoder(tinymvt::tag::TagsEncoder);

/// The names that a `tinymvt::tag::TagsEncoder` holds.
pub uninterp spec fn tag_keys(encoder: tinymvt::tag::TagsEncoder) -> Seq<Seq<char>>;

/// The values that a `tinymvt::tag::TagsEncoder` holds.
pub uninterp spec fn tag_values(encoder: tinymvt::tag::TagsEncoder) -> Seq<TagValue>;

/// The pairs of places that a `tinymvt::tag::TagsEncoder` holds for the current feature.
pub uninterp spec fn tag_places(encoder: tinymvt::tag::TagsEncoder) -> Seq<u32>;

/// The items with one more, unless it is there.
pub open spec fn with_item<T>(items: Seq<T>, item: T) -> Seq<T> {
    if items.contains(item) {
        items
    } else {
        items.push(item)
    }
}

/// Calls `tinymvt::tag::TagsEncoder::new`: nothing in it.
#[verifier::external_body]
fn new_tags() -> (encoder: tinymvt::tag::TagsEncoder)
    ensures
        tag_keys(encoder) == Seq::<Seq<char>>::empty(),
        tag_values(encoder) == Seq::<TagValue>::empty(),
        tag_places(encoder) == Seq::<u32>::empty(),
{
    tinymvt::tag::TagsEncoder::new()
}

/// Calls `tinymvt::tag::TagsEncoder::add`: a new name or value goes to the end of its list, and
/// the places of both are appended for the current feature.
#[verifier::external_body]
fn add_tag(encoder: &mut tinymvt::tag::TagsEncoder, name: &str, value: TagValue)
    requires
        tag_keys(*old(encoder)).len() < u32::MAX,
        tag_values(*old(encoder)).len() < u32::MAX,
    ensures
        tag_keys(*final(encoder)) == with_item(tag_keys(*old(encoder)), name@),
        tag_values(*final(encoder)) == with_item(tag_values(*old(encoder)), value),
        exists|k: u32, v: u32|
            {
                &&& tag_places(*final(encoder)) == #[trigger] tag_places(*old(encoder)).push(k).push(v)
                &&& k < tag_keys(*final(encoder)).len()
                &&& tag_keys(*final(encoder))[k as int] == name@
                &&& v < tag_values(*final(encoder)).len()
                &&& tag_values(*final(encoder))[v as int] == value
            },
{
    encoder.add(name, match value {
        TagValue::SInt(value) => Value::SInt(value),
        TagValue::Double(value) => Value::Double(value.bits.to_ne_bytes()),
    });
}

/// Calls `tinymvt::tag::TagsEncoder::take_tags`: hands out the places for the current feature and
/// begins the next.
#[verifier::external_body]
fn take_places(encoder: &mut tinymvt::tag::TagsEncoder) -> (places: Vec<u32>)
    ensures
        places@ == tag_places(*old(encoder)),
        tag_places(*final(encoder)) == Seq::<u32>::empty(),
        tag_keys(*final(encoder)) == tag_keys(*old(encoder)),
        tag_values(*final(encoder)) == tag_values(*old(encoder)),
{
    encoder.take_tags()
}

/// Calls `tinymvt::tag::TagsEncoder::into_keys_and_values`: the names and the values.
#[verifier::external_body]
fn tag_lists(encoder: tinymvt::tag::TagsEncoder) -> (lists: (Vec<String>, Vec<TagValue>))
    ensures
        texts(lists.0@) == tag_keys(encoder),
        lists.1@ == tag_values(encoder),
{
    let (keys, values) = encoder.into_keys_and_values();
    let plain = |v: &tinymvt::vector_tile::tile::Value| match v.sint_value {
        Some(value) => TagValue::SInt(value),
        None => TagValue::Double(Number { bits: v.double_value.unwrap_or_default().to_bits() }),
    };
    (keys, values.iter().map(plain).collect())
}

/// The attributes that pairs of places in two lists stand for.
pub open spec fn decoded(
    places: Seq<u32>,
    keys: Seq<Seq<char>>,
    values: Seq<TagValue>,
) -> Seq<(Seq<char>, TagValue)> {
    Seq::new(
        places.len() / 2,
        |i: int| (keys[places[2 * i] as int], values[places[2 * i + 1] as int]),
    )
}

/// All places are places in the lists.
pub open spec fn places_fit(places: Seq<u32>, keys: nat, values: nat) -> bool {
    &&& places.len() % 2 == 0
    &&& forall|i: int|
        0 <= i < places.len() / 2 ==> {
            &&& (#[trigger] places[2 * i]) < keys
            &&& places[2 * i + 1] < values
        }
}

/// The place of the name in a pair of places.
pub open spec fn name_place(places: Seq<u32>, i: int) -> u32 {
    places[2 * i]
}

/// The place of the value in a pair of places.
pub open spec fn value_place(places: Seq<u32>, i: int) -> u32 {
    places[2 * i + 1]
}

/// Some pair has the name at a place.
pub open spec fn uses_name(places: Seq<u32>, k: int) -> bool {
    exists|i: int| 0 <= i < places.len() / 2 && #[trigger] name_place(places, i) == k
}

/// Some pair has the value at a place.
pub open spec fn uses_value(places: Seq<u32>, v: int) -> bool {
    exists|i: int| 0 <= i < places.len() / 2 && #[trigger] value_place(places, i) == v
}

/// `longer` goes on from `shorter`.
pub open spec fn continues<T>(shorter: Seq<T>, longer: Seq<T>) -> bool {
    shorter.len() <= longer.len() && longer.take(shorter.len() as int) == shorter
}

proof fn lemma_with_item<T>(items: Seq<T>, item: T)
    requires
        items.no_duplicates(),
    ensures
        with_item(items, item).no_duplicates(),
        continues(items, with_item(items, item)),
        with_item(items, item).len() <= items.len() + 1,
{
    let after = with_item(items, item);
    assert(after.take(items.len() as int) =~= items);
    assert forall|i: int, j: int| 0 <= i < after.len() && 0 <= j < after.len() && i != j implies after[i]
        != after[j] by {
        if !items.contains(item) {
            if i < items.len() {
                assert(items.contains(items[i]));
            }
            if j < items.len() {
                assert(items.contains(items[j]));
            }
        }
    }
}

proof fn lemma_continues<T>(a: Seq<T>, b: Seq<T>, c: Seq<T>)
    requires
        continues(a, b),
        continues(b, c),
    ensures
        continues(a, c),
{
    assert(c.take(a.len() as int) =~= c.take(b.len() as int).take(a.len() as int));
}

proof fn lemma_decoded_continues(
    places: Seq<u32>,
    keys: Seq<Seq<char>>,
    values: Seq<TagValue>,
    more_keys: Seq<Seq<char>>,
    more_values: Seq<TagValue>,
)
    requires
        places_fit(places, keys.len(), values.len()),
        continues(keys, more_keys),
        continues(values, more_values),
    ensures
        places_fit(places, more_keys.len(), more_values.len()),
        decoded(places, more_keys, more_values) == decoded(places, keys, values),
{
    assert forall|i: int| 0 <= i < places.len() / 2 implies (#[trigger] decoded(
        places,
        more_keys,
        more_values,
    )[i]) == decoded(places, keys, values)[i] by {
        assert(places[2 * i] < keys.len());
        assert(more_keys.take(keys.len() as int)[places[2 * i] as int] == keys[places[2 * i] as int]);
        assert(more_values.take(values.len() as int)[places[2 * i + 1] as int]
            == values[places[2 * i + 1] as int]);
    }
    assert(decoded(places, more_keys, more_values) =~= decoded(places, keys, values));
}

proof fn lemma_decoded_push(
    places: Seq<u32>,
    keys: Seq<Seq<char>>,
    values: Seq<TagValue>,
    k: u32,
    v: u32,
)
    requires
        places_fit(places, keys.len(), values.len()),
        k < keys.len(),
        v < values.len(),
    ensures
        places_fit(places.push(k).push(v), keys.len(), values.len()),
        decoded(places.push(k).push(v), keys, values) == decoded(places, keys, values).push(
            (keys[k as int], values[v as int]),
        ),
{
    let after = places.push(k).push(v);
    assert forall|i: int| 0 <= i < after.len() / 2 implies (#[trigger] after[2 * i]) < keys.len()
        && after[2 * i + 1] < values.len() by {
        if i < places.len() / 2 {
            assert(after[2 * i] == places[2 * i]);
            assert(after[2 * i + 1] == places[2 * i + 1]);
        }
    }
    assert(decoded(after, keys, values) =~= decoded(places, keys, values).push(
        (keys[k as int], values[v as int]),
    ));
}

/// A pair of places uses its name and its value, and takes no use away.
proof fn lemma_uses_push(places: Seq<u32>, k: u32, v: u32)
    requires
        places.len() % 2 == 0,
    ensures
        uses_name(places.push(k).push(v), k as int),
        uses_value(places.push(k).push(v), v as int),
        forall|x: int| #[trigger]
            uses_name(places, x) ==> uses_name(places.push(k).push(v), x),
        forall|x: int| #[trigger]
            uses_value(places, x) ==> uses_value(places.push(k).push(v), x),
{
    let after = places.push(k).push(v);
    let last = places.len() as int / 2;
    assert(name_place(after, last) == k);
    assert(value_place(after, last) == v);
    assert forall|x: int| #[trigger] uses_name(places, x) implies uses_name(after, x) by {
        let i = choose|i: int|
            0 <= i < places.len() / 2 && #[trigger] name_place(places, i) == x;
        assert(name_place(after, i) == x);
    }
    assert forall|x: int| #[trigger] uses_value(places, x) implies uses_value(after, x) by {
        let i = choose|i: int|
            0 <= i < places.len() / 2 && #[trigger] value_place(places, i) == x;
        assert(value_place(after, i) == x);
    }
}

// ---------------------------------------------------------------------------
// Features
// ---------------------------------------------------------------------------

/// What the geometry of a feature is made of.
#[derive(Clone, Copy, Debug, PartialEq, Eq, Structural)]
pub enum GeomType {
    Point,
    Linestring,
    Polygon,
}

/// The polygons of some cells, with their attributes.
#[derive(Debug)]
pub struct Feature {
    pub id: u64,
    pub tags: Vec<u32>,
    pub geom_type: GeomType,
    pub geometry: Vec<u32>,
}

/// The features of a product in a tile.
#[derive(Debug)]
pub struct Layer {
    pub version: u32,
    pub name: String,
    pub features: Vec<Feature>,
    pub keys: Vec<String>,
    pub values: Vec<TagValue>,
    pub extent: u32,
}

/// The value, or zero, as 64 bits with its sign carried on.
pub open spec fn wide(value: Option<int>) -> u64 {
    match value {
        Some(value) => (value as i32) as u64,
        None => 0i32 as u64,
    }
}

/// The id of a feature: the values of its bands, laid over one another.
pub open spec fn id_of(values: Values, band_count: int) -> u64 {
    let first = wide(values[0]);
    let second = wide(values[1]) << 32u64;
    let third = wide(values[2]) << 16u64;
    let fourth = wide(values[3]) << 24u64;
    if band_count == 1 {
        first
    } else if band_count == 2 {
        first | second
    } else if band_count == 3 {
        first | second | third
    } else {
        first | second | third | fourth
    }
}

/// The value, or zero, as 64 bits with its sign carried on.
fn widened(value: CompactOptI32) -> (bits: u64)
    ensures
        bits == wide(crate::tile::points::plain(value)),
{
    value.unwrap_or(0) as u64
}

/// The id of a feature.
pub fn feature_id(values: &[CompactOptI32; 4], band_count: usize) -> (id: u64)
    requires
        1 <= band_count <= 4,
        band_count == 1 ==> values@[0]@ is Some,
    ensures
        id == id_of(plain_values(*values), band_count as int),
{
    let first: u64 = widened(values[0]);
    let second: u64 = widened(values[1]) << 32u64;
    let third: u64 = widened(values[2]) << 16u64;
    let fourth: u64 = widened(values[3]) << 24u64;
    if band_count == 1 {
        first
    } else if band_count == 2 {
        first | second
    } else if band_count == 3 {
        first | second | third
    } else {
        first | second | third | fourth
    }
}

/// Why a layer cannot be rendered.
#[derive(Clone, Copy, Debug, PartialEq, Eq, Structural)]
pub enum RenderFault {
    /// A cell of a quantized band carries something that is no class of it.
    UnknownClass,
    /// A cell of the only band has no value.
    MissingValue,
    /// The features have too many values or a shape too large to be encoded.
    TooLarge,
}

/// The classes that the cells of a group carry exist.
pub open spec fn known_classes(group: ValueGroup, scales: Seq<BandScale>) -> bool {
    forall|b: int|
        0 <= b < scales.len() ==> match (
            plain_values(group.values)[b],
            scale_classes(#[trigger] scales[b]),
        ) {
            (Some(value), Some(classes)) => 0 <= value < classes.outputs.len(),
            _ => true,
        }
}

/// The classes that all cells carry exist.
pub open spec fn all_known(groups: Seq<ValueGroup>, scales: Seq<BandScale>) -> bool {
    forall|g: int| 0 <= g < groups.len() ==> known_classes(#[trigger] groups[g], scales)
}

/// Where there is one band, all cells have a value.
pub open spec fn all_valued(groups: Seq<ValueGroup>, band_count: int) -> bool {
    band_count == 1 ==> forall|g: int|
        0 <= g < groups.len() ==> plain_values((#[trigger] groups[g]).values)[0] is Some
}

/// The shapes of all groups can be drawn, and their values counted.
pub open spec fn all_encodable(groups: Seq<ValueGroup>) -> bool {
    &&& groups.len() < 0x3fff_ffff
    &&& forall|g: int|
        0 <= g < groups.len() ==> drawable(united(ring_views((#[trigger] groups[g]).rings@)))
}

/// The feature shows a group: its id, its attributes and its polygons.
pub open spec fn is_feature(
    feature: Feature,
    group: ValueGroup,
    scales: Seq<BandScale>,
    scaled: Seq<Number>,
    band_count: int,
    keys: Seq<Seq<char>>,
    values: Seq<TagValue>,
) -> bool {
    &&& feature.id == id_of(plain_values(group.values), band_count)
    &&& feature.geom_type == GeomType::Polygon
    &&& feature.geometry@ == shape_words(united(ring_views(group.rings@)))
    &&& places_fit(feature.tags@, keys.len(), values.len())
    &&& decoded(feature.tags@, keys, values) == attributes(
        scales,
        plain_values(group.values),
        scaled,
        scales.len(),
    )
}

/// Whether the classes that the cells of a group carry exist.
fn has_known_classes(group: &ValueGroup, scales: &Vec<BandScale>) -> (answer: bool)
    requires
        scales@.len() <= 4,
    ensures
        answer == known_classes(*group, scales@),
{
    for b in 0..scales.len()
        invariant
            scales@.len() <= 4,
            forall|k: int|
                0 <= k < b ==> match (
                    plain_values(group.values)[k],
                    scale_classes(#[trigger] scales@[k]),
                ) {
                    (Some(value), Some(classes)) => 0 <= value < classes.outputs.len(),
                    _ => true,
                },
    {
        if let Some(quantize) = scales[b].quantize {
            if let Some(value) = group.values[b].get() {
                proof {
                    assert(plain_values(group.values)[b as int] == Some(value as int));
                    assert(scale_classes(scales@[b as int]) == Some(quantize@));
                }
                if value < 0 || value as usize >= quantize.class_count() {
                    return false;
                }
            }
        }
    }
    true
}

/// Adds the attributes of a group.
fn add_attributes(
    encoder: &mut tinymvt::tag::TagsEncoder,
    group: &ValueGroup,
    scales: &Vec<BandScale>,
    scaled: &Vec<Number>,
)
    requires
        scales@.len() <= 4,
        scaled@.len() == scales@.len(),
        known_classes(*group, scales@),
        forall|b: int|
            0 <= b < scales@.len() ==> (scale_classes(#[trigger] scales@[b]) matches Some(classes)
                ==> classes.well_formed()),
        tag_places(*old(encoder)) == Seq::<u32>::empty(),
        tag_keys(*old(encoder)).no_duplicates(),
        tag_values(*old(encoder)).no_duplicates(),
        tag_keys(*old(encoder)).len() + 4 <= u32::MAX,
        tag_values(*old(encoder)).len() + 4 <= u32::MAX,
    ensures
        tag_keys(*final(encoder)).no_duplicates(),
        tag_values(*final(encoder)).no_duplicates(),
        continues(tag_keys(*old(encoder)), tag_keys(*final(encoder))),
        continues(tag_values(*old(encoder)), tag_values(*final(encoder))),
        tag_keys(*final(encoder)).len() <= tag_keys(*old(encoder)).len() + 4,
        tag_values(*final(encoder)).len() <= tag_values(*old(encoder)).len() + 4,
        places_fit(
            tag_places(*final(encoder)),
            tag_keys(*final(encoder)).len(),
            tag_values(*final(encoder)).len(),
        ),
        decoded(
            tag_places(*final(encoder)),
            tag_keys(*final(encoder)),
            tag_values(*final(encoder)),
        ) == attributes(scales@, plain_values(group.values), scaled@, scales@.len()),
        forall|k: int|
            tag_keys(*old(encoder)).len() <= k < tag_keys(*final(encoder)).len()
                ==> #[trigger] uses_name(tag_places(*final(encoder)), k),
        forall|v: int|
            tag_values(*old(encoder)).len() <= v < tag_values(*final(encoder)).len()
                ==> #[trigger] uses_value(tag_places(*final(encoder)), v),
{
    let ghost (old_keys, old_values) = (tag_keys(*encoder), tag_values(*encoder));
    proof {
        assert(old_keys.take(old_keys.len() as int) =~= old_keys);
        assert(old_values.take(old_values.len() as int) =~= old_values);
        assert(decoded(tag_places(*encoder), old_keys, old_values) =~= Seq::empty());
    }
    for b in 0..scales.len()
        invariant
            scales@.len() <= 4,
            scaled@.len() == scales@.len(),
            known_classes(*group, scales@),
            forall|k: int|
                0 <= k < scales@.len() ==> (scale_classes(#[trigger] scales@[k]) matches Some(
                    classes,
                ) ==> classes.well_formed()),
            old_keys.len() + 4 <= u32::MAX,
            old_values.len() + 4 <= u32::MAX,
            tag_keys(*encoder).no_duplicates(),
            tag_values(*encoder).no_duplicates(),
            continues(old_keys, tag_keys(*encoder)),
            continues(old_values, tag_values(*encoder)),
            tag_keys(*encoder).len() <= old_keys.len() + b,
            tag_values(*encoder).len() <= old_values.len() + b,
            places_fit(
                tag_places(*encoder),
                tag_keys(*encoder).len(),
                tag_values(*encoder).len(),
            ),
            decoded(tag_places(*encoder), tag_keys(*encoder), tag_values(*encoder)) == attributes(
                scales@,
                plain_values(group.values),
                scaled@,
                b as nat,
            ),
            forall|k: int|
                old_keys.len() <= k < tag_keys(*encoder).len() ==> #[trigger] uses_name(
                    tag_places(*encoder),
                    k,
                ),
            forall|v: int|
                old_values.len() <= v < tag_values(*encoder).len() ==> #[trigger] uses_value(
                    tag_places(*encoder),
                    v,
                ),
    {
        let scale = &scales[b];
        if let Some(value) = group.values[b].get() {
            proof {
                assert(plain_values(group.values)[b as int] == Some(value as int));
                assert(scale_classes(scales@[b as int]) == scale_classes(*scale));
            }
            let tag = scale.tag_value(value, scaled[b]);
            let ghost (keys, values, places) = (
                tag_keys(*encoder),
                tag_values(*encoder),
                tag_places(*encoder),
            );
            add_tag(encoder, scale.name, tag);
            proof {
                let (more_keys, more_values) = (tag_keys(*encoder), tag_values(*encoder));
                lemma_with_item(keys, scale.name@);
                lemma_with_item(values, tag);
                lemma_continues(old_keys, keys, more_keys);
                lemma_continues(old_values, values, more_values);
                lemma_decoded_continues(places, keys, values, more_keys, more_values);
                let (k, v) = choose|k: u32, v: u32|
                    {
                        &&& tag_places(*encoder) == #[trigger] places.push(k).push(v)
                        &&& k < more_keys.len()
                        &&& more_keys[k as int] == scale.name@
                        &&& v < more_values.len()
                        &&& more_values[v as int] == tag
                    };
                lemma_decoded_push(places, more_keys, more_values, k, v);
                lemma_uses_push(places, k, v);
                assert forall|x: int| old_keys.len() <= x < more_keys.len() implies #[trigger] uses_name(
                    tag_places(*encoder),
                    x,
                ) by {
                    if x < keys.len() {
                        assert(uses_name(places, x));
                    } else {
                        assert(more_keys[x] == scale.name@);
                    }
                }
                assert forall|x: int| old_values.len() <= x < more_values.len() implies #[trigger] uses_value(
                    tag_places(*encoder),
                    x,
                ) by {
                    if x < values.len() {
                        assert(uses_value(places, x));
                    } else {
                        assert(more_values[x] == tag);
                    }
                }
            }
        }
    }
}

/// Some feature has the name at a place.
pub open spec fn name_used(features: Seq<Feature>, k: int) -> bool {
    exists|g: int| 0 <= g < features.len() && uses_name((#[trigger] features[g]).tags@, k)
}

/// Some feature has the value at a place.
pub open spec fn value_used(features: Seq<Feature>, v: int) -> bool {
    exists|g: int| 0 <= g < features.len() && uses_value((#[trigger] features[g]).tags@, v)
}

/// Every name and every value is one of some feature.
pub open spec fn all_used(features: Seq<Feature>, keys: nat, values: nat) -> bool {
    &&& forall|k: int| 0 <= k < keys ==> #[trigger] name_used(features, k)
    &&& forall|v: int| 0 <= v < values ==> #[trigger] value_used(features, v)
}

proof fn lemma_used_push(features: Seq<Feature>, feature: Feature, keys: nat, values: nat)
    requires
        all_used(features, keys, values),
    ensures
        all_used(features.push(feature), keys, values),
        forall|k: int| #[trigger]
            uses_name(feature.tags@, k) ==> name_used(features.push(feature), k),
        forall|v: int| #[trigger]
            uses_value(feature.tags@, v) ==> value_used(features.push(feature), v),
{
    let after = features.push(feature);
    assert(after[features.len() as int] == feature);
    assert forall|k: int| 0 <= k < keys implies #[trigger] name_used(after, k) by {
        assert(name_used(features, k));
        let g = choose|g: int|
            0 <= g < features.len() && uses_name((#[trigger] features[g]).tags@, k);
        assert(after[g] == features[g]);
    }
    assert forall|v: int| 0 <= v < values implies #[trigger] value_used(after, v) by {
        assert(value_used(features, v));
        let g = choose|g: int|
            0 <= g < features.len() && uses_value((#[trigger] features[g]).tags@, v);
        assert(after[g] == features[g]);
    }
}

/// The layer shows groups, a feature for each, and its lists hold what the features use and
/// nothing else.
pub open spec fn is_layer(
    layer: Layer,
    groups: Seq<ValueGroup>,
    scales: Seq<BandScale>,
    scaled: Seq<Vec<Number>>,
    band_count: int,
) -> bool {
    &&& layer.version == 2
    &&& layer.extent == EXTENT
    &&& texts(layer.keys@).no_duplicates()
    &&& layer.values@.no_duplicates()
    &&& all_used(layer.features@, layer.keys@.len(), layer.values@.len())
    &&& layer.features@.len() == groups.len()
    &&& forall|g: int|
        0 <= g < groups.len() ==> is_feature(
            #[trigger] layer.features@[g],
            groups[g],
            scales,
            scaled[g]@,
            band_count,
            texts(layer.keys@),
            layer.values@,
        )
}

/// The attributes of the feature at a place.
pub open spec fn feature_attributes(layer: Layer, g: int) -> Seq<(Seq<char>, TagValue)> {
    decoded(layer.features@[g].tags@, texts(layer.keys@), layer.values@)
}

/// Some band with the name has a value, whose attribute is the given one.
pub open spec fn carries(
    scales: Seq<BandScale>,
    values: Values,
    scaled: Seq<Number>,
    n: nat,
    name: Seq<char>,
    tag: TagValue,
) -> bool {
    exists|b: int|
        {
            &&& 0 <= b < n
            &&& (#[trigger] scales[b]).name@ == name
            &&& values[b] is Some
            &&& tag == tag_of(
                scales[b].scaling,
                scale_classes(scales[b]),
                values[b]->Some_0 as i32,
                scaled[b],
            )
        }
}

proof fn lemma_attributes(
    scales: Seq<BandScale>,
    values: Values,
    scaled: Seq<Number>,
    n: nat,
    name: Seq<char>,
    tag: TagValue,
)
    requires
        n <= scales.len(),
    ensures
        attributes(scales, values, scaled, n).contains((name, tag)) <==> carries(
            scales,
            values,
            scaled,
            n,
            name,
            tag,
        ),
    decreases n,
{
    let all = attributes(scales, values, scaled, n);
    if n > 0 {
        let m = (n - 1) as nat;
        let before = attributes(scales, values, scaled, m);
        lemma_attributes(scales, values, scaled, m, name, tag);
        if before.contains((name, tag)) {
            let i = choose|i: int| 0 <= i < before.len() && before[i] == (name, tag);
            assert(all[i] == (name, tag));
        }
        if all.contains((name, tag)) && !before.contains((name, tag)) {
            let i = choose|i: int| 0 <= i < all.len() && all[i] == (name, tag);
            if i < before.len() {
                assert(before[i] == (name, tag));
            }
            assert(scales[n - 1].name@ == name);
        }
        if carries(scales, values, scaled, n, name, tag) && !carries(
            scales,
            values,
            scaled,
            m,
            name,
            tag,
        ) {
            let b = choose|b: int|
                {
                    &&& 0 <= b < n
                    &&& (#[trigger] scales[b]).name@ == name
                    &&& values[b] is Some
                    &&& tag == tag_of(
                        scales[b].scaling,
                        scale_classes(scales[b]),
                        values[b]->Some_0 as i32,
                        scaled[b],
                    )
                };
            assert(b == n - 1);
            assert(all[before.len() as int] == (name, tag));
        }
    }
}

/// A layer has exactly one polygon feature for the values of each cell that covers anything: cells
/// with the same values share one. The feature carries an attribute with the name of a band exactly
/// where the band has a value, and then it is the one of that value.
pub proof fn law_one_polygon_per_value(
    layer: Layer,
    groups: Seq<ValueGroup>,
    cells: Seq<Entry>,
    boxes: Seq<PixelBox>,
    n: nat,
    scales: Seq<BandScale>,
    scaled: Seq<Vec<Number>>,
    band_count: int,
)
    requires
        are_groups(groups, cells, boxes, n),
        is_layer(layer, groups, scales, scaled, band_count),
    ensures
        layer.features@.len() == groups.len(),
        forall|g: int|
            0 <= g < groups.len() ==> (#[trigger] layer.features@[g]).geom_type
                == GeomType::Polygon,
        forall|values: Values|
            (#[trigger] covered(cells, boxes, values, n)).len() > 0 <==> has_group(groups, values),
        forall|g: int, h: int|
            0 <= g < groups.len() && 0 <= h < groups.len() && plain_values(
                (#[trigger] groups[g]).values,
            ) == plain_values((#[trigger] groups[h]).values) ==> g == h,
        forall|g: int, name: Seq<char>, tag: TagValue|
            0 <= g < groups.len() ==> (#[trigger] feature_attributes(layer, g).contains((name, tag))
                <==> carries(
                scales,
                plain_values(groups[g].values),
                scaled[g]@,
                scales.len(),
                name,
                tag,
            )),
{
    assert forall|g: int| 0 <= g < groups.len() implies (#[trigger] layer.features@[g]).geom_type
        == GeomType::Polygon && feature_attributes(layer, g) == attributes(
        scales,
        plain_values(groups[g].values),
        scaled[g]@,
        scales.len(),
    ) by {
        assert(is_feature(
            layer.features@[g],
            groups[g],
            scales,
            scaled[g]@,
            band_count,
            texts(layer.keys@),
            layer.values@,
        ));
    }
    assert forall|values: Values|
        (#[trigger] covered(cells, boxes, values, n)).len() > 0 <==> has_group(groups, values) by {
        if has_group(groups, values) {
            let g = choose|g: int|
                0 <= g < groups.len() && plain_values((#[trigger] groups[g]).values) == values;
            assert(ring_views(groups[g].rings@) == covered(cells, boxes, values, n));
        }
    }
    assert forall|g: int, name: Seq<char>, tag: TagValue| 0 <= g < groups.len() implies (
    #[trigger] feature_attributes(layer, g).contains((name, tag)) <==> carries(
        scales,
        plain_values(groups[g].values),
        scaled[g]@,
        scales.len(),
        name,
        tag,
    )) by {
        assert(layer.features@[g].geom_type == GeomType::Polygon);
        lemma_attributes(
            scales,
            plain_values(groups[g].values),
            scaled[g]@,
            scales.len(),
            name,
            tag,
        );
    }
}

/// The groups of cells that a layer shows carry classes that exist, so that rendering them never
/// meets an unknown class.
pub proof fn law_shown_groups_have_known_classes(
    finish: Finish,
    cells: Seq<Entry>,
    groups: Seq<ValueGroup>,
    boxes: Seq<PixelBox>,
    scales: Seq<BandScale>,
)
    requires
        finish.well_formed(),
        scales.len() <= finish.quantize@.len(),
        forall|b: int|
            0 <= b < scales.len() ==> scale_classes(#[trigger] scales[b]) == all_classes(
                finish.quantize@,
            )[b],
        are_groups(groups, finish.cells(cells), boxes, finish.cells(cells).len()),
    ensures
        all_known(groups, scales),
{
    let shown = finish.cells(cells);
    assert forall|g: int| 0 <= g < groups.len() implies known_classes(
        #[trigger] groups[g],
        scales,
    ) by {
        let values = plain_values(groups[g].values);
        assert(ring_views(groups[g].rings@).len() > 0);
        lemma_covered_by_a_cell(shown, boxes, values, shown.len());
        let i = choose|i: int| 0 <= i < shown.len() && (#[trigger] shown[i]).1.values == values;
        assert forall|b: int| 0 <= b < scales.len() implies match (
            values[b],
            scale_classes(#[trigger] scales[b]),
        ) {
            (Some(value), Some(classes)) => 0 <= value < classes.outputs.len(),
            _ => true,
        } by {
            law_shown_classes_exist(finish, cells, i, b);
        }
    }
}

/// The attribute tells the number: as an integer with the number's value, or as the number itself.
/// 2^63, which no 64-bit integer is, is told by the greatest of them.
pub open spec fn tells(tag: TagValue, number: Number) -> bool {
    match tag {
        TagValue::SInt(n) => {
            ||| n * pow2(1074) == number.units()
            ||| n == i64::MAX && number.units() == pow2(63) * pow2(1074)
        },
        TagValue::Double(value) => value == number,
    }
}

/// The attribute of a class tells the number that the class emits: as an integer where all classes
/// of the band emit integers of 64 bits, else as it is.
pub proof fn law_attributes_tell_the_output(
    scaling: bool,
    classes: Classes,
    value: i32,
    scaled: Number,
)
    requires
        classes.well_formed(),
        0 <= value < classes.outputs.len(),
    ensures
        tells(tag_of(scaling, Some(classes), value, scaled), classes.outputs[value as int]),
        tag_of(scaling, Some(classes), value, scaled) is SInt <==> forall|c: int|
            0 <= c < classes.outputs.len() ==> {
                let units = (#[trigger] classes.outputs[c]).units();
                &&& units % pow2(1074) as int == 0
                &&& -(pow2(63) * pow2(1074)) <= units <= pow2(63) * pow2(1074)
            },
{
    let output = classes.outputs[value as int];
    let one = pow2(1074) as int;
    lemma_pow2_pos(1074);
    lemma2_to64_rest();
    if classes.integral {
        assert(is_integer(output));
        lemma_fundamental_div_mod(output.units(), one);
        assert(one * output.whole() == output.whole() * one) by (nonlinear_arith);
        let whole = output.whole();
        let limit = pow2(63) as int;
        assert(-limit <= whole <= limit) by (nonlinear_arith)
            requires
                whole * one == output.units(),
                -(limit * one) <= output.units() <= limit * one,
                one > 0,
        ;
        assert forall|c: int| 0 <= c < classes.outputs.len() implies (
        #[trigger] classes.outputs[c]).units() % one == 0 && -(pow2(63) * pow2(1074))
            <= classes.outputs[c].units() <= pow2(63) * pow2(1074) by {
            assert(is_integer(classes.outputs[c]));
        }
    } else {
        let c = choose|c: int|
            0 <= c < classes.outputs.len() && !is_integer(#[trigger] classes.outputs[c]);
        assert(!is_integer(classes.outputs[c]));
    }
}

/// The attribute of a raw value in a quantized band tells what the last class emits whose boundary
/// the value reaches, and what the first class emits where it reaches none.
pub proof fn law_raw_values_show_their_class(
    scaling: bool,
    classes: Classes,
    raw: i32,
    scaled: Number,
    class: int,
)
    requires
        classes.well_formed(),
        0 <= class < classes.outputs.len(),
        class == 0 || classes.raw_bounds[class] <= raw,
        class + 1 < classes.raw_bounds.len() ==> raw < classes.raw_bounds[class + 1],
    ensures
        tells(
            tag_of(scaling, Some(classes), classes.class_of(raw) as i32, scaled),
            classes.outputs[class],
        ),
{
    law_classes_cover_every_value(classes, raw, class);
    law_attributes_tell_the_output(scaling, classes, class as i32, scaled);
}

/// The attribute of a value in a band without classes is the scaled value where the band is scaled,
/// and the value itself where it is not.
pub proof fn law_plain_values_show_themselves(scaling: bool, value: i32, scaled: Number)
    ensures
        scaling ==> tag_of(scaling, None, value, scaled) == TagValue::Double(scaled),
        !scaling ==> tag_of(scaling, None, value, scaled) == TagValue::SInt(value as i64),
{
}

/// Where a cell has a value in a band, its feature has an attribute with the name of the band: in a
/// quantized band it tells the number that the cell's class emits, else it is the scaled value or
/// the value itself.
pub proof fn law_features_tell_the_values(
    layer: Layer,
    groups: Seq<ValueGroup>,
    scales: Seq<BandScale>,
    scaled: Seq<Vec<Number>>,
    band_count: int,
    g: int,
    b: int,
)
    requires
        is_layer(layer, groups, scales, scaled, band_count),
        0 <= g < groups.len(),
        0 <= b < scales.len() <= 4,
        all_known(groups, scales),
        scales[b].quantize matches Some(quantize) ==> quantize@.well_formed(),
    ensures
        groups[g].values@[b]@ matches Some(value) ==> exists|tag: TagValue|
            {
                &&& #[trigger] feature_attributes(layer, g).contains((scales[b].name@, tag))
                &&& match scales[b].quantize {
                    Some(quantize) => tells(tag, quantize@.outputs[value as int]),
                    None => if scales[b].scaling {
                        tag == TagValue::Double(scaled[g]@[b])
                    } else {
                        tag == TagValue::SInt(value as i64)
                    },
                }
            },
{
    if let Some(value) = groups[g].values@[b]@ {
        let values = plain_values(groups[g].values);
        assert(values[b] == Some(value as int));
        let tag = tag_of(scales[b].scaling, scale_classes(scales[b]), value, scaled[g]@[b]);
        assert(is_feature(
            layer.features@[g],
            groups[g],
            scales,
            scaled[g]@,
            band_count,
            texts(layer.keys@),
            layer.values@,
        ));
        assert(carries(scales, values, scaled[g]@, scales.len(), scales[b].name@, tag));
        lemma_attributes(scales, values, scaled[g]@, scales.len(), scales[b].name@, tag);
        assert(known_classes(groups[g], scales));
        if let Some(quantize) = scales[b].quantize {
            law_attributes_tell_the_output(
                scales[b].scaling,
                quantize@,
                value,
                scaled[g]@[b],
            );
        } else {
            law_plain_values_show_themselves(scales[b].scaling, value, scaled[g]@[b]);
        }
        assert(feature_attributes(layer, g).contains((scales[b].name@, tag)));
    }
}

/// Renders groups of cells as a layer.
///
/// `scaled` holds, for each group and band, the scaled value.
pub fn render_mvt_layer(
    layer_name: &str,
    band_count: usize,
    groups: &Vec<ValueGroup>,
    scales: &Vec<BandScale>,
    scaled: &Vec<Vec<Number>>,
) -> (result: Result<Option<Layer>, RenderFault>)
    requires
        1 <= band_count <= 4,
        scales@.len() <= 4,
        scaled@.len() == groups@.len(),
        forall|g: int| 0 <= g < scaled@.len() ==> (#[trigger] scaled@[g])@.len() == scales@.len(),
        forall|g: int|
            0 <= g < groups@.len() ==> in_overlay_range(
                ring_views((#[trigger] groups@[g]).rings@),
            ),
        forall|b: int|
            0 <= b < scales@.len() ==> (scale_classes(#[trigger] scales@[b]) matches Some(classes)
                ==> classes.well_formed()),
    ensures
        match result {
            Err(RenderFault::UnknownClass) => !all_known(groups@, scales@),
            Err(RenderFault::MissingValue) => all_known(groups@, scales@) && !all_valued(
                groups@,
                band_count as int,
            ),
            Err(RenderFault::TooLarge) => all_known(groups@, scales@) && all_valued(
                groups@,
                band_count as int,
            ) && !all_encodable(groups@),
            Ok(None) => groups@.len() == 0,
            Ok(Some(layer)) => {
                &&& groups@.len() > 0
                &&& all_known(groups@, scales@)
                &&& all_valued(groups@, band_count as int)
                &&& all_encodable(groups@)
                &&& layer.name@ == layer_name@
                &&& is_layer(layer, groups@, scales@, scaled@, band_count as int)
            },
        },
{
    if groups.len() == 0 {
        return Ok(None);
    }
    for g in 0..groups.len()
        invariant
            scales@.len() <= 4,
            forall|k: int| 0 <= k < g ==> known_classes(#[trigger] groups@[k], scales@),
    {
        if !has_known_classes(&groups[g], scales) {
            proof {
                assert(!known_classes(groups@[g as int], scales@));
            }
            return Err(RenderFault::UnknownClass);
        }
    }
    if band_count == 1 {
        for g in 0..groups.len()
            invariant
                band_count == 1,
                all_known(groups@, scales@),
                forall|k: int|
                    0 <= k < g ==> plain_values((#[trigger] groups@[k]).values)[0] is Some,
        {
            if groups[g].values[0].get().is_none() {
                proof {
                    assert(plain_values(groups@[g as int].values)[0] is None);
                }
                return Err(RenderFault::MissingValue);
            }
        }
    }
    if groups.len() >= 0x3fff_ffff {
        return Err(RenderFault::TooLarge);
    }
    let mut encoder = new_tags();
    let mut features: Vec<Feature> = Vec::new();
    for g in 0..groups.len()
        invariant
            1 <= band_count <= 4,
            scales@.len() <= 4,
            groups@.len() < 0x3fff_ffff,
            scaled@.len() == groups@.len(),
            forall|k: int|
                0 <= k < scaled@.len() ==> (#[trigger] scaled@[k])@.len() == scales@.len(),
            forall|k: int|
                0 <= k < groups@.len() ==> in_overlay_range(
                    ring_views((#[trigger] groups@[k]).rings@),
                ),
            forall|b: int|
                0 <= b < scales@.len() ==> (scale_classes(#[trigger] scales@[b]) matches Some(
                    classes,
                ) ==> classes.well_formed()),
            all_known(groups@, scales@),
            all_valued(groups@, band_count as int),
            features@.len() == g,
            tag_places(encoder) == Seq::<u32>::empty(),
            tag_keys(encoder).no_duplicates(),
            tag_values(encoder).no_duplicates(),
            tag_keys(encoder).len() <= 4 * g,
            tag_values(encoder).len() <= 4 * g,
            all_used(features@, tag_keys(encoder).len(), tag_values(encoder).len()),
            forall|k: int|
                0 <= k < g ==> drawable(united(ring_views((#[trigger] groups@[k]).rings@))),
            forall|k: int|
                0 <= k < g ==> is_feature(
                    #[trigger] features@[k],
                    groups@[k],
                    scales@,
                    scaled@[k]@,
                    band_count as int,
                    tag_keys(encoder),
                    tag_values(encoder),
                ),
    {
        let group = &groups[g];
        proof {
            assert(known_classes(groups@[g as int], scales@));
            assert(scaled@[g as int]@.len() == scales@.len());
            assert(plain_values(groups@[g as int].values).len() == 4);
        }
        let shapes = union_of(&group.rings);
        let geometry = match encode_shapes(&shapes) {
            Some(geometry) => geometry,
            None => {
                proof {
                    assert(!drawable(united(ring_views(groups@[g as int].rings@))));
                }
                return Err(RenderFault::TooLarge);
            },
        };
        let ghost (keys, values) = (tag_keys(encoder), tag_values(encoder));
        add_attributes(&mut encoder, group, scales, &scaled[g]);
        let tags = take_places(&mut encoder);
        let id = feature_id(&group.values, band_count);
        let ghost before = features@;
        features.push(Feature { id, tags, geom_type: GeomType::Polygon, geometry });
        proof {
            lemma_used_push(before, features@[g as int], keys.len(), values.len());
            assert(features@ =~= before.push(features@[g as int]));
            assert forall|k: int| 0 <= k < tag_keys(encoder).len() implies #[trigger] name_used(
                features@,
                k,
            ) by {
                if k >= keys.len() {
                    assert(uses_name(features@[g as int].tags@, k));
                }
            }
            assert forall|v: int| 0 <= v < tag_values(encoder).len() implies #[trigger] value_used(
                features@,
                v,
            ) by {
                if v >= values.len() {
                    assert(uses_value(features@[g as int].tags@, v));
                }
            }
            assert forall|k: int| 0 <= k < g + 1 implies is_feature(
                #[trigger] features@[k],
                groups@[k],
                scales@,
                scaled@[k]@,
                band_count as int,
                tag_keys(encoder),
                tag_values(encoder),
            ) by {
                if k < g {
                    assert(features@[k] == before[k]);
                    assert(is_feature(
                        before[k],
                        groups@[k],
                        scales@,
                        scaled@[k]@,
                        band_count as int,
                        keys,
                        values,
                    ));
                    lemma_decoded_continues(
                        before[k].tags@,
                        keys,
                        values,
                        tag_keys(encoder),
                        tag_values(encoder),
                    );
                }
            }
        }
    }
    let (keys, values) = tag_lists(encoder);
    Ok(
        Some(
            Layer {
                version: 2,
                name: layer_name.to_owned(),
                features,
                keys,
                values,
                extent: EXTENT as u32,
            },
        ),
    )
}

// ---------------------------------------------------------------------------
// Bytes
// ---------------------------------------------------------------------------

/// What a feature holds.
pub struct FeatureParts {
    pub id: u64,
    pub tags: Seq<u32>,
    pub geom_type: GeomType,
    pub geometry: Seq<u32>,
}

/// What a layer holds.
pub struct LayerParts {
    pub version: u32,
    pub name: Seq<char>,
    pub features: Seq<FeatureParts>,
    pub keys: Seq<Seq<char>>,
    pub values: Seq<TagValue>,
    pub extent: u32,
}

impl View for Feature {
    type V = FeatureParts;

    open spec fn view(&self) -> FeatureParts {
        FeatureParts {
            id: self.id,
            tags: self.tags@,
            geom_type: self.geom_type,
            geometry: self.geometry@,
        }
    }
}

impl View for Layer {
    type V = LayerParts;

    open spec fn view(&self) -> LayerParts {
        LayerParts {
            version: self.version,
            name: self.name@,
            features: self.features@.map_values(|feature: Feature| feature@),
            keys: texts(self.keys@),
            values: self.values@,
            extent: self.extent,
        }
    }
}

/// What each layer holds.
pub open spec fn layer_views(layers: Seq<Layer>) -> Seq<LayerParts> {
    layers.map_values(|layer: Layer| layer@)
}

/// The bytes that `prost` writes for a tile with these layers.
pub uninterp spec fn tile_message(layers: Seq<LayerParts>) -> Seq<u8>;

/// Calls `prost::Message::encode_to_vec` on a `tinymvt::vector_tile::Tile` with the layers. The
/// bytes are named, not described: they are a function of what the layers hold.
#[verifier::external_body]
fn encode_message(layers: Vec<Layer>) -> (bytes: Vec<u8>)
    ensures
        bytes@ == tile_message(layer_views(layers@)),
{
    Tile { layers: layers.into_iter().map(|Layer { version, name, features, keys, values, extent }|
        WireLayer { version, name, keys, extent: Some(extent),
            features: features.into_iter().map(|Feature { id, tags, geom_type, geometry }| {
                let mut f = WireFeature { id: Some(id), tags, geometry, ..Default::default() };
                f.set_type(match geom_type {
                    GeomType::Point => WireType::Point,
                    GeomType::Linestring => WireType::Linestring,
                    GeomType::Polygon => WireType::Polygon });
                f
            }).collect(),
            values: values.into_iter().map(|v| match v {
                SInt(v) => Value::SInt(v),
                Double(v) => Value::Double(v.bits.to_ne_bytes())
            }.into_tile_value()).collect()
        }).collect() }.encode_to_vec()
}

/// The bytes that `flate2` writes for bytes.
pub uninterp spec fn gzipped(bytes: Seq<u8>) -> Seq<u8>;

/// Calls `flate2::write::GzEncoder` at the default level, with a vector to write to, which cannot
/// fail. The bytes are named, not described.
#[verifier::external_body]
fn gzip(bytes: &Vec<u8>) -> (packed: Vec<u8>)
    ensures
        packed@ == gzipped(bytes@),
{
    let mut encoder = flate2::write::GzEncoder::new(Vec::new(), flate2::Compression::default());
    encoder.write_all(bytes).expect("a vector takes all bytes");
    encoder.finish().expect("a vector takes all bytes")
}

/// The bytes of a tile with some layers; a tile without layers is not written.
pub fn encode_tile(layers: Vec<Layer>) -> (bytes: Option<Vec<u8>>)
    ensures
        match bytes {
            Some(bytes) => layers@.len() > 0 && bytes@ == gzipped(
                tile_message(layer_views(layers@)),
            ),
            None => layers@.len() == 0,
        },
{
    if layers.len() == 0 {
        return None;
    }
    Some(gzip(&encode_message(layers)))
}

/// A value of a band, or zero.
pub open spec fn or_zero(value: Option<int>) -> int {
    match value {
        Some(value) => value,
        None => 0,
    }
}

/// The id of a feature tells its values. Of one band it is the value, a negative one counted down
/// from 2^64. Of several bands the first stands lowest, the second from bit 32, the third from bit
/// 16 and the fourth from bit 24, and they add up where none reaches into another.
pub proof fn law_ids_tell_the_values(values: Values, band_count: int)
    requires
        values.len() == 4,
        1 <= band_count <= 4,
        forall|b: int|
            0 <= b < 4 ==> i32::MIN <= or_zero(#[trigger] values[b]) <= i32::MAX,
    ensures
        band_count == 1 ==> id_of(values, band_count) == if or_zero(values[0]) >= 0 {
            or_zero(values[0])
        } else {
            0x1_0000_0000_0000_0000 + or_zero(values[0])
        },
        band_count == 2 && or_zero(values[0]) >= 0 && or_zero(values[1]) >= 0 ==> id_of(
            values,
            band_count,
        ) == or_zero(values[0]) + 0x1_0000_0000 * or_zero(values[1]),
        band_count == 3 && 0 <= or_zero(values[0]) < 0x1_0000 && or_zero(values[1]) >= 0 && 0
            <= or_zero(values[2]) < 0x1_0000 ==> id_of(values, band_count) == or_zero(values[0])
            + 0x1_0000_0000 * or_zero(values[1]) + 0x1_0000 * or_zero(values[2]),
        band_count == 4 && 0 <= or_zero(values[0]) < 0x1_0000 && or_zero(values[1]) >= 0 && 0
            <= or_zero(values[2]) < 0x100 && 0 <= or_zero(values[3]) < 0x100 ==> id_of(
            values,
            band_count,
        ) == or_zero(values[0]) + 0x1_0000_0000 * or_zero(values[1]) + 0x1_0000 * or_zero(values[2])
            + 0x100_0000 * or_zero(values[3]),
{
    assert(or_zero(values[0]) <= i32::MAX && or_zero(values[1]) <= i32::MAX && or_zero(values[2])
        <= i32::MAX && or_zero(values[3]) <= i32::MAX);
    let v = or_zero(values[0]) as i32;
    assert(v < 0 ==> v as u64 == 0x1_0000_0000_0000_0000 + v) by (bit_vector);
    assert(v >= 0 ==> v as u64 == v) by (bit_vector);
    let (a, b, c, d) = (wide(values[0]), wide(values[1]), wide(values[2]), wide(values[3]));
    assert(a < 0x8000_0000 && b < 0x8000_0000 ==> a | (b << 32u64) == a + 0x1_0000_0000 * b)
        by (bit_vector);
    assert(a < 0x1_0000 && b < 0x8000_0000 && c < 0x1_0000 ==> a | (b << 32u64) | (c << 16u64) == a
        + 0x1_0000_0000 * b + 0x1_0000 * c) by (bit_vector);
    assert(a < 0x1_0000 && b < 0x8000_0000 && c < 0x100 && d < 0x100 ==> a | (b << 32u64) | (c
        << 16u64) | (d << 24u64) == a + 0x1_0000_0000 * b + 0x1_0000 * c + 0x100_0000 * d)
        by (bit_vector);
}

/// The attribute tells what the argument gives for a raw value of a band: the number behind the
/// colon of the last entry whose boundary the value reaches, or of the first entry where it reaches
/// none; an entry without a colon gives its boundary.
pub open spec fn tells_as_written(tag: TagValue, arg: QuantizeArg, b: int, raw: i32) -> bool {
    let list = list_of(arg.text@);
    let entries = arg.entries@;
    forall|c: int|
        0 <= c < entries.len() && (c == 0 || entries[c].raw_bounds@[b] <= raw) && (c + 1
            < entries.len() ==> raw < entries[c + 1].raw_bounds@[b]) ==> {
            let given = if list[c].contains(':') {
                (#[trigger] entries[c]).output
            } else {
                entries[c].bound
            };
            given matches Reading::Finite(number) && tells(tag, number)
        }
}

/// Some argument is about a band, and the attribute tells what it gives for a raw value.
pub open spec fn tells_some_argument(
    tag: TagValue,
    args: Seq<QuantizeArg>,
    names: Seq<Seq<char>>,
    b: int,
    raw: i32,
) -> bool {
    exists|a: int|
        {
            &&& 0 <= a < args.len()
            &&& is_about((#[trigger] args[a]).text@, names, b)
            &&& args[a].entries@.len() > 0
            &&& tells_as_written(tag, args[a], b, raw)
        }
}

/// The attribute of a raw value in a quantized band tells the number that the argument for the band
/// gives for it.
pub proof fn law_raw_values_show_what_was_written(
    args: Seq<QuantizeArg>,
    names: Seq<Seq<char>>,
    quantize: Seq<Option<Classes>>,
    b: int,
    raw: i32,
    scaling: bool,
    scaled: Number,
)
    requires
        forall|i: int|
            0 <= i < args.len() ==> (#[trigger] args[i]).well_formed() && args[i].placed(
                names.len(),
            ),
        resolved(args, names, args.len()) == Ok::<Seq<Option<Classes>>, ErrorView>(quantize),
        0 <= b < names.len(),
        quantize[b] is Some,
        quantize[b]->Some_0.well_formed(),
    ensures
        tells_some_argument(
            tag_of(
                scaling,
                quantize[b],
                quantize[b]->Some_0.class_of(raw) as i32,
                scaled,
            ),
            args,
            names,
            b,
            raw,
        ),
{
    let classes = quantize[b]->Some_0;
    let a = lemma_argument_of(args, names, quantize, b);
    let (list, entries) = (list_of(args[a].text@), args[a].entries@);
    let tag = tag_of(scaling, quantize[b], classes.class_of(raw) as i32, scaled);
    assert forall|c: int|
        0 <= c < entries.len() && (c == 0 || entries[c].raw_bounds@[b] <= raw) && (c + 1
            < entries.len() ==> raw < entries[c + 1].raw_bounds@[b]) implies {
        let given = if list[c].contains(':') {
            (#[trigger] entries[c]).output
        } else {
            entries[c].bound
        };
        given matches Reading::Finite(number) && tells(tag, number)
    } by {
        assert(entries[c].bound == Reading::Finite(classes.bounds[c]));
        if c + 1 < entries.len() {
            assert(entries[c + 1].bound == Reading::Finite(classes.bounds[c + 1]));
        }
        law_raw_values_show_their_class(scaling, classes, raw, scaled, c);
    }
    assert(tells_as_written(tag, args[a], b, raw));
}

/// How many of the first `n` bands have a value.
pub open spec fn valued_before(values: Values, n: nat) -> nat
    decreases n,
{
    if n == 0 {
        0
    } else if values[n - 1] is Some {
        valued_before(values, (n - 1) as nat) + 1
    } else {
        valued_before(values, (n - 1) as nat)
    }
}

proof fn lemma_attributes_len(
    scales: Seq<BandScale>,
    values: Values,
    scaled: Seq<Number>,
    n: nat,
)
    ensures
        attributes(scales, values, scaled, n).len() == valued_before(values, n),
    decreases n,
{
    if n > 0 {
        lemma_attributes_len(scales, values, scaled, (n - 1) as nat);
    }
}

/// The attributes of a cell come in the order of the bands, one for each band with a value, under
/// the name of the band.
pub proof fn law_attributes_come_in_the_order_of_bands(
    scales: Seq<BandScale>,
    values: Values,
    scaled: Seq<Number>,
    n: nat,
    b: int,
)
    requires
        0 <= b < n,
        values[b] is Some,
    ensures
        attributes(scales, values, scaled, n).len() == valued_before(values, n),
        valued_before(values, b as nat) < attributes(scales, values, scaled, n).len(),
        attributes(scales, values, scaled, n)[valued_before(values, b as nat) as int].0
            == scales[b].name@,
    decreases n,
{
    let m = (n - 1) as nat;
    lemma_attributes_len(scales, values, scaled, n);
    lemma_attributes_len(scales, values, scaled, m);
    if b < m {
        law_attributes_come_in_the_order_of_bands(scales, values, scaled, m, b);
    }
}

/// A band's attributes carry its name. Where it has no classes they are its values themselves as long
/// as none of its factors changes a value, else the scaled ones.
pub proof fn law_attributes_follow_the_band(
    scale: BandScale,
    band: BandSpec,
    quantize: Option<BandQuantize>,
    value: i32,
    scaled: Number,
)
    requires
        is_scale_of(scale, band, quantize),
        band.reference_value.is_finite(),
    ensures
        scale.name@ == band.name@,
        quantize is None ==> tag_of(scale.scaling, scale_classes(scale), value, scaled)
            == if band.reference_value.units() == 0 && band.binary_scale == 0 && band.decimal_scale
            == 0 {
            TagValue::SInt(value as i64)
        } else {
            TagValue::Double(scaled)
        },
        quantize matches Some(quantize) ==> scale_classes(scale) == Some(quantize@),
{
    let zero = Number { bits: 0 };
    assert(zero.is_finite() && zero.units() == 0);
    law_keys_order_values(band.reference_value, zero);
}

/// The bit at a place of a 64-bit number.
pub open spec fn has_bit(n: u64, place: u64) -> bool {
    (n >> place) & 1 == 1
}

/// A value of a band, or zero, in 64 bits: a negative one has all bits above its own set.
pub open spec fn in_64_bits(value: Option<int>) -> u64 {
    match value {
        Some(value) => (value as i32) as u64,
        None => 0,
    }
}

/// The id of a feature has exactly the bits of its values: those of the first band at their places,
/// those of the second 32 places higher, of the third 16 and of the fourth 24.
pub proof fn law_ids_have_the_bits_of_the_values(values: Values, band_count: int, place: u64)
    requires
        values.len() == 4,
        1 <= band_count <= 4,
        place < 64,
    ensures
        has_bit(id_of(values, band_count), place) <==> {
            ||| has_bit(in_64_bits(values[0]), place)
            ||| band_count >= 2 && place >= 32 && has_bit(
                in_64_bits(values[1]),
                (place - 32) as u64,
            )
            ||| band_count >= 3 && place >= 16 && has_bit(
                in_64_bits(values[2]),
                (place - 16) as u64,
            )
            ||| band_count >= 4 && place >= 24 && has_bit(
                in_64_bits(values[3]),
                (place - 24) as u64,
            )
        },
{
    let (a, b, c, d) = (wide(values[0]), wide(values[1]), wide(values[2]), wide(values[3]));
    assert(0i32 as u64 == 0u64) by (bit_vector);
    lemma_shifted_bit(b, 32, place);
    lemma_shifted_bit(c, 16, place);
    lemma_shifted_bit(d, 24, place);
    let (y, z, w) = (b << 32u64, c << 16u64, d << 24u64);
    lemma_or_bit(a, y, place);
    lemma_or_bit(a | y, z, place);
    lemma_or_bit(a | y | z, w, place);
}

proof fn lemma_or_bit(a: u64, b: u64, place: u64)
    requires
        place < 64,
    ensures
        has_bit(a | b, place) <==> has_bit(a, place) || has_bit(b, place),
{
    assert(((a | b) >> place) & 1 == 1 <==> (a >> place) & 1 == 1 || (b >> place) & 1 == 1)
        by (bit_vector)
        requires
            place < 64,
    ;
}

proof fn lemma_shifted_bit(n: u64, steps: u64, place: u64)
    requires
        place < 64,
        steps < 64,
    ensures
        place >= steps ==> has_bit(n << steps, place) == has_bit(n, (place - steps) as u64),
        place < steps ==> !has_bit(n << steps, place),
{
    assert(place < steps ==> ((n << steps) >> place) & 1 == 0) by (bit_vector)
        requires
            place < 64,
            steps < 64,
    ;
    if place >= steps {
        let lower = (place - steps) as u64;
        assert(((n << steps) >> place) & 1 == (n >> lower) & 1) by (bit_vector)
            requires
                place < 64,
                steps < 64,
                lower == place - steps,
        ;
    }
}

/// A layer is one of version 2 of the vector tile format and 4096 pixels wide, and no name or value
/// stands twice in its lists.
pub proof fn law_layers_follow_the_format(
    layer: Layer,
    groups: Seq<ValueGroup>,
    scales: Seq<BandScale>,
    scaled: Seq<Vec<Number>>,
    band_count: int,
    i: int,
    j: int,
)
    requires
        is_layer(layer, groups, scales, scaled, band_count),
    ensures
        layer.version == 2,
        layer.extent == 4096,
        layer.features@.len() == groups.len(),
        0 <= i < j < layer.keys@.len() ==> layer.keys@[i]@ != layer.keys@[j]@,
        0 <= i < j < layer.values@.len() ==> layer.values@[i] != layer.values@[j],
{
    let names = texts(layer.keys@);
    if 0 <= i < j < layer.keys@.len() {
        assert(names[i] != names[j]);
    }
}

} // verus!
