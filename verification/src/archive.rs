//! Bringing the layers of an archive in line with each other and with the options.
use crate::error::{Error, ErrorView};
use crate::metadata::{
    generate_metadata, is_metadata, law_metadata_lists_the_layers, Metadata,
};
use crate::model::{BandSpec, PreparedProduct};
use crate::number::{at_most, equal, magnitude_units, max_of, min_of, Number};
use crate::omit::{all_omissions, copy_omits, resolve_omits, resolved_omits, OmitArg, Omission};
use crate::options::{
    build_layer_names, law_renaming_keeps_names_apart, layer_names, renamed, resolve_renames,
    ConvertOptions, Renaming,
};
use crate::prepare::{greatest_number, least_number};
use crate::quantize::{
    all_classes, all_well_formed, copy_quantize, resolve, resolved, Classes, QuantizeArg,
};
use crate::select::{have_times, is_selection, select_products};
use crate::text::{numeral, substituted, texts};
use vstd::arithmetic::power2::*;
use vstd::prelude::*;

verus! {

/// The names of the bands.
pub open spec fn band_names(bands: Seq<BandSpec>) -> Seq<Seq<char>> {
    bands.map_values(|band: BandSpec| band.name@)
}

/// The names of the bands.
pub fn names_of(bands: &Vec<BandSpec>) -> (names: Vec<String>)
    ensures
        texts(names@) == band_names(bands@),
        names@.len() == bands@.len(),
{
    let mut names: Vec<String> = Vec::new();
    for i in 0..bands.len()
        invariant
            names@.len() == i,
            forall|k: int| 0 <= k < i ==> (#[trigger] names@[k])@ == bands@[k].name@,
    {
        names.push(bands[i].name.clone());
    }
    proof {
        assert(texts(names@) =~= band_names(bands@));
    }
    names
}

// ---------------------------------------------------------------------------
// Compatibility
// ---------------------------------------------------------------------------

/// Two products share a grid and a base zoom.
pub open spec fn compatible(a: PreparedProduct, b: PreparedProduct) -> bool {
    a.spec.base_z == b.spec.base_z && a.spec.grid_spec.same_as(b.spec.grid_spec)
}

/// The first of `n` products that is not compatible with the first of all.
pub open spec fn first_stranger(products: Seq<PreparedProduct>, n: nat) -> Option<int>
    decreases n,
{
    if n <= 1 {
        None
    } else {
        match first_stranger(products, (n - 1) as nat) {
            Some(place) => Some(place),
            None => if compatible(products[n - 1], products[0]) {
                None
            } else {
                Some(n - 1)
            },
        }
    }
}

/// What is wrong with products that should share a grid, if anything is.
pub open spec fn grid_fault(products: Seq<PreparedProduct>) -> Option<ErrorView> {
    match first_stranger(products, products.len()) {
        None => None,
        Some(place) => Some(
            ErrorView::IncompatibleGrids {
                first: products[0].spec.name@,
                other: products[place].spec.name@,
            },
        ),
    }
}

proof fn lemma_stranger_stays(products: Seq<PreparedProduct>, n: nat, m: nat)
    requires
        n <= m,
        first_stranger(products, n) is Some,
    ensures
        first_stranger(products, m) == first_stranger(products, n),
    decreases m,
{
    if n < m {
        lemma_stranger_stays(products, n, (m - 1) as nat);
    }
}

/// Checks that all products share a grid and a base zoom.
pub fn ensure_compatible_products(products: &Vec<PreparedProduct>) -> (result: Result<(), Error>)
    requires
        products@.len() > 0,
    ensures
        match result {
            Ok(()) => grid_fault(products@) is None,
            Err(error) => grid_fault(products@) == Some(error@),
        },
{
    let first = &products[0].spec;
    proof {
        assert(first_stranger(products@, 1) is None);
    }
    for i in 1..products.len()
        invariant
            products@.len() > 0,
            *first == products@[0].spec,
            first_stranger(products@, i as nat) is None,
    {
        let other = &products[i].spec;
        if other.base_z != first.base_z || !other.grid_spec.equals(&first.grid_spec) {
            proof {
                assert(first_stranger(products@, (i + 1) as nat) == Some(i as int));
                lemma_stranger_stays(products@, (i + 1) as nat, products@.len());
            }
            return Err(
                Error::IncompatibleGrids { first: first.name.clone(), other: other.name.clone() },
            );
        }
    }
    Ok(())
}

/// Where no product is a stranger, all others are compatible with the first.
pub proof fn law_compatible_products_share_a_grid(products: Seq<PreparedProduct>, n: nat, i: int)
    requires
        first_stranger(products, n) is None,
        0 < i < n,
    ensures
        compatible(products[i], products[0]),
    decreases n,
{
    if i < n - 1 {
        law_compatible_products_share_a_grid(products, (n - 1) as nat, i);
    }
}

// ---------------------------------------------------------------------------
// Bounds and zooms
// ---------------------------------------------------------------------------

/// West, south, east and north of the first `n` products.
pub open spec fn joint_bounds(products: Seq<PreparedProduct>, n: nat) -> Seq<Number>
    decreases n,
{
    if n == 0 {
        seq![greatest_number(), greatest_number(), least_number(), least_number()]
    } else {
        let before = joint_bounds(products, (n - 1) as nat);
        let bounds = products[n - 1].spec.bounds@;
        seq![
            min_of(before[0], bounds[0]),
            min_of(before[1], bounds[1]),
            max_of(before[2], bounds[2]),
            max_of(before[3], bounds[3]),
        ]
    }
}

/// The bounds of all products, as far as they lie on the world.
pub open spec fn world_bounds(products: Seq<PreparedProduct>) -> Seq<Number> {
    let all = joint_bounds(products, products.len());
    seq![
        max_of(all[0], Number { bits: 0xc066_8000_0000_0000 }),
        max_of(all[1], Number { bits: 0xc056_8000_0000_0000 }),
        min_of(all[2], Number { bits: 0x4066_8000_0000_0000 }),
        min_of(all[3], Number { bits: 0x4056_8000_0000_0000 }),
    ]
}

/// West, south, east and north of all products, within 180 degrees of longitude and 90 degrees of
/// latitude.
pub fn combined_bounds(products: &Vec<PreparedProduct>) -> (bounds: [Number; 4])
    ensures
        bounds@ == world_bounds(products@),
{
    let mut west = Number { bits: 0x7fef_ffff_ffff_ffff };
    let mut south = Number { bits: 0x7fef_ffff_ffff_ffff };
    let mut east = Number { bits: 0xffef_ffff_ffff_ffff };
    let mut north = Number { bits: 0xffef_ffff_ffff_ffff };
    for i in 0..products.len()
        invariant
            seq![west, south, east, north] == joint_bounds(products@, i as nat),
    {
        let ghost before = joint_bounds(products@, i as nat);
        proof {
            assert(before[0] == west && before[1] == south && before[2] == east && before[3]
                == north);
        }
        let bounds = &products[i].spec.bounds;
        west = west.min(bounds[0]);
        south = south.min(bounds[1]);
        east = east.max(bounds[2]);
        north = north.max(bounds[3]);
    }
    let ghost all = joint_bounds(products@, products@.len());
    proof {
        assert(all[0] == west && all[1] == south && all[2] == east && all[3] == north);
    }
    let bounds = [
        west.max(Number { bits: 0xc066_8000_0000_0000 }),
        south.max(Number { bits: 0xc056_8000_0000_0000 }),
        east.min(Number { bits: 0x4066_8000_0000_0000 }),
        north.min(Number { bits: 0x4056_8000_0000_0000 }),
    ];
    proof {
        assert(bounds@ =~= world_bounds(products@));
    }
    bounds
}

/// The greatest of a start value and the first `n` values.
pub open spec fn highest(start: u8, values: Seq<u8>, n: nat) -> u8
    decreases n,
{
    if n == 0 {
        start
    } else {
        let before = highest(start, values, (n - 1) as nat);
        if values[n - 1] > before {
            values[n - 1]
        } else {
            before
        }
    }
}

/// The highest zoom: the one that is asked for, else the highest at which the grid of a product
/// has detail, else the lowest.
pub open spec fn highest_zoom(min_zoom: u8, max_zoom: Option<u8>, detail_zooms: Seq<u8>) -> u8 {
    match max_zoom {
        Some(zoom) => zoom,
        None => if detail_zooms.len() == 0 {
            min_zoom
        } else {
            highest(0, detail_zooms, detail_zooms.len())
        },
    }
}

/// The highest zoom, which must not lie below the lowest.
///
/// `detail_zooms` holds for each product the highest zoom at which its grid has detail.
pub fn resolve_max_zoom(min_zoom: u8, max_zoom: Option<u8>, detail_zooms: &Vec<u8>) -> (result:
    Result<u8, Error>)
    ensures
        ({
            let highest = highest_zoom(min_zoom, max_zoom, detail_zooms@);
            match result {
                Ok(zoom) => min_zoom <= highest && zoom == highest,
                Err(error) => min_zoom > highest && error@ == (ErrorView::EmptyZoomRange {
                    min_zoom,
                    max_zoom: highest,
                }),
            }
        }),
{
    let zoom: u8 = match max_zoom {
        Some(zoom) => zoom,
        None => {
            let mut zoom: u8 = 0;
            for i in 0..detail_zooms.len()
                invariant
                    zoom == highest(0, detail_zooms@, i as nat),
            {
                if detail_zooms[i] > zoom {
                    zoom = detail_zooms[i];
                }
            }
            if detail_zooms.len() == 0 {
                min_zoom
            } else {
                zoom
            }
        },
    };
    if min_zoom > zoom {
        return Err(Error::EmptyZoomRange { min_zoom, max_zoom: zoom });
    }
    Ok(zoom)
}

// ---------------------------------------------------------------------------
// Renaming and quantization
// ---------------------------------------------------------------------------

/// The bands are the same but for their names, which are new as far as there are new ones.
pub open spec fn are_renamed_bands(
    before: Seq<BandSpec>,
    after: Seq<BandSpec>,
    names: Seq<Seq<char>>,
) -> bool {
    &&& after.len() == before.len()
    &&& forall|b: int|
        0 <= b < before.len() ==> {
            &&& (#[trigger] after[b]).name@ == (if b < names.len() {
                names[b]
            } else {
                before[b].name@
            })
            &&& after[b].reference_value == before[b].reference_value
            &&& after[b].binary_scale == before[b].binary_scale
            &&& after[b].decimal_scale == before[b].decimal_scale
            &&& after[b].max == before[b].max
            &&& after[b].min == before[b].min
        }
}

/// The product is the same but for its bands, quantization and omissions.
pub open spec fn same_data(before: PreparedProduct, after: PreparedProduct) -> bool {
    &&& after.product_id == before.product_id
    &&& after.chunks == before.chunks
    &&& after.spec.name == before.spec.name
    &&& after.spec.base_z == before.spec.base_z
    &&& after.spec.grid_spec == before.spec.grid_spec
    &&& after.spec.aggregation == before.spec.aggregation
    &&& after.spec.bounds == before.spec.bounds
}

/// The product with renamed bands.
pub open spec fn is_renamed(
    before: PreparedProduct,
    after: PreparedProduct,
    names: Seq<Seq<char>>,
) -> bool {
    &&& same_data(before, after)
    &&& after.spec.quantize == before.spec.quantize
    &&& after.spec.omit == before.spec.omit
    &&& are_renamed_bands(before.spec.band_specs@, after.spec.band_specs@, names)
}

/// The product with classes and omissions.
pub open spec fn is_quantized(
    before: PreparedProduct,
    after: PreparedProduct,
    classes: Seq<Option<Classes>>,
    omissions: Seq<Option<Omission>>,
) -> bool {
    &&& same_data(before, after)
    &&& after.spec.band_specs == before.spec.band_specs
    &&& all_classes(after.spec.quantize@) == classes
    &&& all_omissions(after.spec.omit@) == omissions
}

/// Gives the bands new names, as far as there are new ones.
fn rename_bands(bands: &mut Vec<BandSpec>, names: &Vec<String>)
    ensures
        are_renamed_bands(old(bands)@, final(bands)@, texts(names@)),
{
    let ghost start = bands@;
    let count: usize = if names.len() < bands.len() {
        names.len()
    } else {
        bands.len()
    };
    for b in 0..count
        invariant
            count <= names@.len(),
            count <= bands@.len(),
            bands@.len() == start.len(),
            forall|k: int|
                0 <= k < b ==> {
                    &&& (#[trigger] bands@[k]).name@ == texts(names@)[k]
                    &&& bands@[k].reference_value == start[k].reference_value
                    &&& bands@[k].binary_scale == start[k].binary_scale
                    &&& bands@[k].decimal_scale == start[k].decimal_scale
                    &&& bands@[k].max == start[k].max
                    &&& bands@[k].min == start[k].min
                },
            forall|k: int| b <= k < start.len() ==> #[trigger] bands@[k] == start[k],
    {
        let band = &bands[b];
        let renamed = BandSpec {
            name: names[b].clone(),
            reference_value: band.reference_value,
            binary_scale: band.binary_scale,
            decimal_scale: band.decimal_scale,
            max: band.max,
            min: band.min,
        };
        bands.set(b, renamed);
    }
}

/// The renaming of the bands of the first product.
pub open spec fn band_renaming(products: Seq<PreparedProduct>, args: Seq<Seq<char>>) -> Renaming {
    renamed(band_names(products[0].spec.band_specs@), args, args.len())
}

/// Renames bands in all products. The names are resolved once, against the first product.
pub fn apply_renames(products: &mut Vec<PreparedProduct>, args: &Vec<String>) -> (result: Result<
    (),
    Error,
>)
    ensures
        final(products)@.len() == old(products)@.len(),
        args@.len() == 0 || old(products)@.len() == 0 ==> result is Ok && final(products)@
            == old(products)@,
        args@.len() > 0 && old(products)@.len() > 0 ==> {
            let renaming = band_renaming(old(products)@, texts(args@));
            match result {
                Ok(()) => renaming.error is None && forall|i: int|
                    0 <= i < old(products)@.len() ==> is_renamed(
                        old(products)@[i],
                        #[trigger] final(products)@[i],
                        renaming.names,
                    ),
                Err(error) => renaming.error == Some(error@) && final(products)@ == old(products)@,
            }
        },
{
    if args.len() == 0 || products.len() == 0 {
        return Ok(());
    }
    let ghost start = products@;
    let mut names = names_of(&products[0].spec.band_specs);
    match resolve_renames(&mut names, args) {
        Ok(()) => {},
        Err(error) => return Err(error),
    }
    let count: usize = products.len();
    for i in 0..count
        invariant
            count == products@.len(),
            products@.len() == start.len(),
            forall|k: int|
                0 <= k < i ==> is_renamed(start[k], #[trigger] products@[k], texts(names@)),
            forall|k: int| i <= k < start.len() ==> #[trigger] products@[k] == start[k],
    {
        rename_bands(&mut products[i].spec.band_specs, &names);
    }
    Ok(())
}

/// What the options make of the bands of the first product: classes and omissions.
pub open spec fn band_quantization(
    products: Seq<PreparedProduct>,
    args: Seq<QuantizeArg>,
    omit_args: Seq<OmitArg>,
    omit_zero: bool,
    zeros: Seq<Option<i32>>,
) -> Result<(Seq<Option<Classes>>, Seq<Option<Omission>>), ErrorView> {
    let names = band_names(products[0].spec.band_specs@);
    match resolved(args, names, args.len()) {
        Err(error) => Err(error),
        Ok(classes) => match resolved_omits(omit_args, omit_zero, zeros, classes, names) {
            Err(error) => Err(error),
            Ok(omissions) => Ok((classes, omissions)),
        },
    }
}

/// Resolves quantization and omissions once, against the first product, and shares them with every
/// layer.
///
/// `zeros` holds the raw value that zero is in each band, if it is one.
pub fn apply_quantization(
    products: &mut Vec<PreparedProduct>,
    args: &Vec<QuantizeArg>,
    omit_args: &Vec<OmitArg>,
    omit_zero: bool,
    zeros: &Vec<Option<i32>>,
) -> (result: Result<(), Error>)
    requires
        old(products)@.len() > 0 ==> zeros@.len() == old(products)@[0].spec.band_specs@.len(),
        old(products)@.len() > 0 ==> forall|i: int|
            0 <= i < args@.len() ==> (#[trigger] args@[i]).well_formed() && args@[i].placed(
                old(products)@[0].spec.band_specs@.len(),
            ),
        old(products)@.len() > 0 ==> forall|i: int|
            0 <= i < omit_args@.len() ==> (#[trigger] omit_args@[i]).well_formed()
                && omit_args@[i].placed(old(products)@[0].spec.band_specs@.len()),
    ensures
        final(products)@.len() == old(products)@.len(),
        old(products)@.len() == 0 || (args@.len() == 0 && omit_args@.len() == 0 && !omit_zero)
            ==> result is Ok && final(products)@ == old(products)@,
        old(products)@.len() > 0 && (args@.len() > 0 || omit_args@.len() > 0 || omit_zero) ==> {
            let quantization = band_quantization(
                old(products)@,
                args@,
                omit_args@,
                omit_zero,
                zeros@,
            );
            match result {
                Ok(()) => quantization matches Ok((classes, omissions)) && all_well_formed(classes)
                    && forall|i: int|
                    0 <= i < old(products)@.len() ==> is_quantized(
                        old(products)@[i],
                        #[trigger] final(products)@[i],
                        classes,
                        omissions,
                    ),
                Err(error) => quantization == Err::<
                    (Seq<Option<Classes>>, Seq<Option<Omission>>),
                    ErrorView,
                >(error@) && final(products)@ == old(products)@,
            }
        },
{
    if args.len() == 0 && omit_args.len() == 0 && !omit_zero {
        return Ok(());
    }
    if products.len() == 0 {
        return Ok(());
    }
    let ghost start = products@;
    let names = names_of(&products[0].spec.band_specs);
    let quantize = match resolve(args, &names) {
        Ok(quantize) => quantize,
        Err(error) => return Err(error),
    };
    let omits = match resolve_omits(omit_args, omit_zero, zeros, &quantize, &names) {
        Ok(omits) => omits,
        Err(error) => return Err(error),
    };
    let count: usize = products.len();
    for i in 0..count
        invariant
            count == products@.len(),
            products@.len() == start.len(),
            forall|k: int|
                0 <= k < i ==> is_quantized(
                    start[k],
                    #[trigger] products@[k],
                    all_classes(quantize@),
                    all_omissions(omits@),
                ),
            forall|k: int| i <= k < start.len() ==> #[trigger] products@[k] == start[k],
    {
        products[i].spec.quantize = copy_quantize(&quantize);
        products[i].spec.omit = copy_omits(&omits);
    }
    Ok(())
}

// ---------------------------------------------------------------------------
// The plan of an archive
// ---------------------------------------------------------------------------

/// The layers are the selected products, with their bands renamed.
pub open spec fn are_renamed_layers(
    selected: Seq<PreparedProduct>,
    layers: Seq<PreparedProduct>,
    args: Seq<Seq<char>>,
) -> bool {
    &&& layers.len() == selected.len()
    &&& args.len() == 0 || selected.len() == 0 ==> layers == selected
    &&& args.len() > 0 && selected.len() > 0 ==> band_renaming(selected, args).error is None
        && forall|i: int|
        0 <= i < selected.len() ==> is_renamed(
            selected[i],
            #[trigger] layers[i],
            band_renaming(selected, args).names,
        )
}

/// What keeps the selected products from becoming layers with numbers from a start, if anything
/// does.
pub open spec fn layering_fault(
    selected: Seq<PreparedProduct>,
    start: usize,
    args: Seq<Seq<char>>,
) -> Option<ErrorView> {
    if start + selected.len() > usize::MAX {
        Some(ErrorView::LayerNumbersOverflow)
    } else if grid_fault(selected) is Some {
        grid_fault(selected)
    } else if args.len() > 0 && selected.len() > 0 {
        band_renaming(selected, args).error
    } else {
        None
    }
}

/// What the options select of the products.
pub open spec fn selects(
    options: ConvertOptions,
    products: Seq<PreparedProduct>,
    result: Result<Seq<PreparedProduct>, ErrorView>,
) -> bool {
    is_selection(
        result,
        products,
        match options.product {
            Some(product) => Some(product@),
            None => None,
        },
        options.layer_count,
        options.skip_analysis,
        options.min_lead_time,
    )
}

/// The layers and their names are what the options make of products.
pub open spec fn are_made_layers(
    options: ConvertOptions,
    products: Seq<PreparedProduct>,
    layers: Seq<PreparedProduct>,
    names: Seq<Seq<char>>,
) -> bool {
    exists|selected: Seq<PreparedProduct>|
        {
            &&& #[trigger] selects(
                options,
                products,
                Ok::<Seq<PreparedProduct>, ErrorView>(selected),
            )
            &&& layering_fault(selected, options.layer_seq_start, texts(options.rename@)) is None
            &&& are_renamed_layers(selected, layers, texts(options.rename@))
            &&& names == layer_names(
                options.layer_name_pattern@,
                options.layer_seq_start as nat,
                selected.len(),
            )
        }
}

/// Picks the products that become layers, names the layers, checks that they share a grid, and
/// renames their bands.
pub fn select_layers(products: Vec<PreparedProduct>, options: &ConvertOptions) -> (result: Result<
    (Vec<PreparedProduct>, Vec<String>),
    Error,
>)
    requires
        have_times(products@),
    ensures
        match result {
            Ok((layers, names)) => exists|selected: Seq<PreparedProduct>|
                {
                    &&& #[trigger] selects(
                        *options,
                        products@,
                        Ok::<Seq<PreparedProduct>, ErrorView>(selected),
                    )
                    &&& layering_fault(
                        selected,
                        options.layer_seq_start,
                        texts(options.rename@),
                    ) is None
                    &&& are_renamed_layers(selected, layers@, texts(options.rename@))
                    &&& texts(names@) == layer_names(
                        options.layer_name_pattern@,
                        options.layer_seq_start as nat,
                        selected.len(),
                    )
                },
            Err(error) => selects(
                *options,
                products@,
                Err::<Seq<PreparedProduct>, ErrorView>(error@),
            ) || exists|selected: Seq<PreparedProduct>|
                #[trigger] selects(
                    *options,
                    products@,
                    Ok::<Seq<PreparedProduct>, ErrorView>(selected),
                ) && layering_fault(
                    selected,
                    options.layer_seq_start,
                    texts(options.rename@),
                ) == Some(error@),
        },
        result matches Ok((layers, names)) ==> are_made_layers(
            *options,
            products@,
            layers@,
            texts(names@),
        ),
{
    let requested: Option<&str> = match &options.product {
        Some(product) => Some(product.as_str()),
        None => None,
    };
    let ghost all = products@;
    let selection = select_products(
        products,
        requested,
        options.layer_count,
        options.skip_analysis,
        options.min_lead_time,
    );
    let mut layers = match selection {
        Ok(layers) => layers,
        Err(error) => return Err(error),
    };
    let ghost selected = layers@;
    proof {
        assert(selects(*options, all, Ok::<Seq<PreparedProduct>, ErrorView>(selected)));
    }
    if layers.len() > usize::MAX - options.layer_seq_start {
        return Err(Error::LayerNumbersOverflow);
    }
    let names = build_layer_names(options, layers.len());
    if layers.len() > 0 {
        match ensure_compatible_products(&layers) {
            Ok(()) => {},
            Err(error) => return Err(error),
        }
    }
    match apply_renames(&mut layers, &options.rename) {
        Ok(()) => {},
        Err(error) => return Err(error),
    }
    Ok((layers, names))
}

/// Everything that is decided about an archive before its tiles are made.
#[derive(Debug)]
pub struct Plan {
    pub layers: Vec<PreparedProduct>,
    pub layer_names: Vec<String>,
    pub max_zoom: u8,
    pub bounds: [Number; 4],
    pub metadata: Metadata,
}

/// What the numbers of the options mean for the layers.
#[derive(Debug)]
pub struct Readings<'a> {
    pub quantize: &'a Vec<QuantizeArg>,
    pub omit: &'a Vec<OmitArg>,
    /// The raw value that zero is in each band, if it is one.
    pub zeros: &'a Vec<Option<i32>>,
    /// For each layer the highest zoom at which its grid has detail.
    pub detail_zooms: &'a Vec<u8>,
}

impl<'a> Readings<'a> {
    /// All numbers are read against so many bands.
    pub open spec fn well_formed(self, bands: nat) -> bool {
        &&& self.zeros@.len() == bands
        &&& forall|i: int|
            0 <= i < self.quantize@.len() ==> (#[trigger] self.quantize@[i]).well_formed()
                && self.quantize@[i].placed(bands)
        &&& forall|i: int|
            0 <= i < self.omit@.len() ==> (#[trigger] self.omit@[i]).well_formed()
                && self.omit@[i].placed(bands)
    }

    /// Something is quantized or left out.
    pub open spec fn any(self, omit_zero: bool) -> bool {
        self.quantize@.len() > 0 || self.omit@.len() > 0 || omit_zero
    }
}

/// The layers of the plan are the given ones, quantized where anything is.
pub open spec fn are_planned(
    before: Seq<PreparedProduct>,
    after: Seq<PreparedProduct>,
    readings: Readings,
    omit_zero: bool,
) -> bool {
    &&& after.len() == before.len()
    &&& !readings.any(omit_zero) ==> after == before
    &&& readings.any(omit_zero) ==> match band_quantization(
        before,
        readings.quantize@,
        readings.omit@,
        omit_zero,
        readings.zeros@,
    ) {
        Err(_) => false,
        Ok((classes, omissions)) => all_well_formed(classes) && forall|i: int|
            0 <= i < before.len() ==> is_quantized(
                before[i],
                #[trigger] after[i],
                classes,
                omissions,
            ),
    }
}

/// The plan is what the options make of layers.
pub open spec fn is_plan(
    plan: Plan,
    layers: Seq<PreparedProduct>,
    names: Seq<Seq<char>>,
    options: ConvertOptions,
    readings: Readings,
    archive_name: Seq<char>,
) -> bool {
    &&& are_planned(layers, plan.layers@, readings, options.omit_zero)
    &&& texts(plan.layer_names@) == names
    &&& plan.max_zoom == highest_zoom(
        options.min_zoom,
        options.max_zoom,
        readings.detail_zooms@,
    )
    &&& options.min_zoom <= plan.max_zoom
    &&& plan.bounds@ == world_bounds(plan.layers@)
    &&& is_metadata(
        plan.metadata,
        archive_name,
        plan.layers@,
        names,
        plan.bounds@,
        options.min_zoom,
        plan.max_zoom,
    )
}

/// Decides everything about an archive: how its values are quantized, up to which zoom it goes,
/// how far it reaches, and what it says of itself.
pub fn plan_archive(
    layers: Vec<PreparedProduct>,
    layer_names: Vec<String>,
    options: &ConvertOptions,
    readings: &Readings,
    archive_name: &str,
) -> (result: Result<Plan, Error>)
    requires
        layers@.len() > 0,
        readings.well_formed(layers@[0].spec.band_specs@.len()),
    ensures
        ({
            let max_zoom = highest_zoom(
                options.min_zoom,
                options.max_zoom,
                readings.detail_zooms@,
            );
            match result {
                Ok(plan) => {
                    &&& are_planned(layers@, plan.layers@, *readings, options.omit_zero)
                    &&& plan.layer_names == layer_names
                    &&& options.min_zoom <= max_zoom
                    &&& plan.max_zoom == max_zoom
                    &&& plan.bounds@ == world_bounds(plan.layers@)
                    &&& is_metadata(
                        plan.metadata,
                        archive_name@,
                        plan.layers@,
                        texts(layer_names@),
                        plan.bounds@,
                        options.min_zoom,
                        max_zoom,
                    )
                },
                Err(error) => if readings.any(options.omit_zero) && band_quantization(
                    layers@,
                    readings.quantize@,
                    readings.omit@,
                    options.omit_zero,
                    readings.zeros@,
                ) is Err {
                    band_quantization(
                        layers@,
                        readings.quantize@,
                        readings.omit@,
                        options.omit_zero,
                        readings.zeros@,
                    ) == Err::<(Seq<Option<Classes>>, Seq<Option<Omission>>), ErrorView>(error@)
                } else {
                    &&& options.min_zoom > max_zoom
                    &&& error@ == (ErrorView::EmptyZoomRange {
                        min_zoom: options.min_zoom,
                        max_zoom,
                    })
                },
            }
        }),
        result matches Ok(plan) ==> is_plan(
            plan,
            layers@,
            texts(layer_names@),
            *options,
            *readings,
            archive_name@,
        ),
{
    let mut layers = layers;
    match apply_quantization(
        &mut layers,
        readings.quantize,
        readings.omit,
        options.omit_zero,
        readings.zeros,
    ) {
        Ok(()) => {},
        Err(error) => return Err(error),
    }
    let max_zoom = match resolve_max_zoom(
        options.min_zoom,
        options.max_zoom,
        readings.detail_zooms,
    ) {
        Ok(max_zoom) => max_zoom,
        Err(error) => return Err(error),
    };
    let bounds = combined_bounds(&layers);
    let metadata = generate_metadata(
        archive_name,
        &layers,
        &layer_names,
        bounds,
        options.min_zoom,
        max_zoom,
    );
    Ok(Plan { layers, layer_names, max_zoom, bounds, metadata })
}

/// The bounds of an archive lie on the world.
pub proof fn law_bounds_lie_on_the_world(products: Seq<PreparedProduct>)
    ensures
        at_most((Number { bits: 0xc066_8000_0000_0000 }), world_bounds(products)[0]),
        at_most((Number { bits: 0xc056_8000_0000_0000 }), world_bounds(products)[1]),
        at_most(world_bounds(products)[2], (Number { bits: 0x4066_8000_0000_0000 })),
        at_most(world_bounds(products)[3], (Number { bits: 0x4056_8000_0000_0000 })),
{
}

/// Products that should share a grid do so exactly where each has the grid and the base zoom of the
/// first; else the error names the first product and the first that differs from it.
pub proof fn law_strangers_are_found(products: Seq<PreparedProduct>)
    requires
        products.len() > 0,
    ensures
        match grid_fault(products) {
            None => forall|i: int| 0 < i < products.len() ==> compatible(#[trigger] products[i], products[0]),
            Some(error) => exists|k: int|
                {
                    &&& 0 < k < products.len()
                    &&& !compatible(#[trigger] products[k], products[0])
                    &&& forall|i: int|
                        0 < i < k ==> compatible(#[trigger] products[i], products[0])
                    &&& error == (ErrorView::IncompatibleGrids {
                        first: products[0].spec.name@,
                        other: products[k].spec.name@,
                    })
                },
        },
{
    lemma_first_stranger(products, products.len());
    if let Some(k) = first_stranger(products, products.len()) {
        assert(!compatible(products[k], products[0]));
    }
}

proof fn lemma_first_stranger(products: Seq<PreparedProduct>, n: nat)
    requires
        n <= products.len(),
    ensures
        match first_stranger(products, n) {
            None => forall|i: int| 0 < i < n ==> compatible(#[trigger] products[i], products[0]),
            Some(k) => {
                &&& 0 < k < n
                &&& !compatible(products[k], products[0])
                &&& forall|i: int| 0 < i < k ==> compatible(#[trigger] products[i], products[0])
            },
        },
    decreases n,
{
    if n > 0 {
        lemma_first_stranger(products, (n - 1) as nat);
    }
}

/// The bounds of a product are finite numbers.
pub open spec fn is_bounded(product: PreparedProduct) -> bool {
    &&& product.spec.bounds@[0].is_finite()
    &&& product.spec.bounds@[1].is_finite()
    &&& product.spec.bounds@[2].is_finite()
    &&& product.spec.bounds@[3].is_finite()
}

/// Some product has the number at a side of its bounds.
pub open spec fn some_side(products: Seq<PreparedProduct>, side: int, number: Number) -> bool {
    exists|i: int|
        0 <= i < products.len() && equal((#[trigger] products[i]).spec.bounds@[side], number)
}

proof fn lemma_joint_bounds(products: Seq<PreparedProduct>, n: nat)
    requires
        n <= products.len(),
        forall|i: int| 0 <= i < products.len() ==> is_bounded(#[trigger] products[i]),
    ensures
        n > 0 ==> {
            let all = joint_bounds(products, n);
            &&& some_side(products, 0, all[0])
            &&& some_side(products, 1, all[1])
            &&& some_side(products, 2, all[2])
            &&& some_side(products, 3, all[3])
            &&& all[0].is_finite() && all[1].is_finite()
            &&& all[2].is_finite() && all[3].is_finite()
            &&& forall|i: int|
                0 <= i < n ==> {
                    &&& at_most(all[0], (#[trigger] products[i]).spec.bounds@[0])
                    &&& at_most(all[1], products[i].spec.bounds@[1])
                    &&& at_most(products[i].spec.bounds@[2], all[2])
                    &&& at_most(products[i].spec.bounds@[3], all[3])
                }
        },
    decreases n,
{
    if n > 0 {
        lemma_joint_bounds(products, (n - 1) as nat);
        let last = products[n - 1];
        let all = joint_bounds(products, n);
        let before = joint_bounds(products, (n - 1) as nat);
        assert(is_bounded(last));
        if n == 1 {
            assert(before == seq![
                greatest_number(),
                greatest_number(),
                least_number(),
                least_number(),
            ]);
        }
        assert(n == 1 ==> equal(last.spec.bounds@[0], all[0]));
        assert(n == 1 ==> equal(last.spec.bounds@[1], all[1]));
        assert(n == 1 ==> equal(last.spec.bounds@[2], all[2]));
        assert(n == 1 ==> equal(last.spec.bounds@[3], all[3]));
        assert(some_side(products, 0, all[0])) by {
            if !equal(last.spec.bounds@[0], all[0]) {
                assert(some_side(products, 0, before[0]));
            }
        }
        assert(some_side(products, 1, all[1])) by {
            if !equal(last.spec.bounds@[1], all[1]) {
                assert(some_side(products, 1, before[1]));
            }
        }
        assert(some_side(products, 2, all[2])) by {
            if !equal(last.spec.bounds@[2], all[2]) {
                assert(some_side(products, 2, before[2]));
            }
        }
        assert(some_side(products, 3, all[3])) by {
            if !equal(last.spec.bounds@[3], all[3]) {
                assert(some_side(products, 3, before[3]));
            }
        }
    }
}

/// The bounds of an archive hold those of all its products as far as these lie on the world, and
/// are no wider: each side is that of a product, or the edge of the world.
pub proof fn law_bounds_hold_all_products(products: Seq<PreparedProduct>)
    requires
        products.len() > 0,
        forall|i: int| 0 <= i < products.len() ==> is_bounded(#[trigger] products[i]),
    ensures
        ({
            let all = world_bounds(products);
            let (west, south) = (
                Number { bits: 0xc066_8000_0000_0000 },
                Number { bits: 0xc056_8000_0000_0000 },
            );
            let (east, north) = (
                Number { bits: 0x4066_8000_0000_0000 },
                Number { bits: 0x4056_8000_0000_0000 },
            );
            &&& forall|i: int|
                0 <= i < products.len() ==> {
                    let bounds = (#[trigger] products[i]).spec.bounds@;
                    &&& at_most(all[0], bounds[0]) || at_most(bounds[0], west) && equal(
                        all[0],
                        west,
                    )
                    &&& at_most(all[1], bounds[1]) || at_most(bounds[1], south) && equal(
                        all[1],
                        south,
                    )
                    &&& at_most(bounds[2], all[2]) || at_most(east, bounds[2]) && equal(
                        all[2],
                        east,
                    )
                    &&& at_most(bounds[3], all[3]) || at_most(north, bounds[3]) && equal(
                        all[3],
                        north,
                    )
                }
            &&& some_side(products, 0, all[0]) || equal(all[0], west)
            &&& some_side(products, 1, all[1]) || equal(all[1], south)
            &&& some_side(products, 2, all[2]) || equal(all[2], east)
            &&& some_side(products, 3, all[3]) || equal(all[3], north)
        }),
{
    lemma_joint_bounds(products, products.len());
}

proof fn lemma_highest(start: u8, values: Seq<u8>, n: nat)
    requires
        n <= values.len(),
    ensures
        highest(start, values, n) >= start,
        forall|i: int| 0 <= i < n ==> (#[trigger] values[i]) <= highest(start, values, n),
        highest(start, values, n) == start || exists|i: int|
            0 <= i < n && (#[trigger] values[i]) == highest(start, values, n),
    decreases n,
{
    if n > 0 {
        lemma_highest(start, values, (n - 1) as nat);
        assert(values[n - 1] <= highest(start, values, n));
    }
}

/// The highest zoom is the one that is asked for. Where none is, it is the highest at which the grid
/// of any product has detail, and the lowest where there are no products.
pub proof fn law_the_highest_zoom_has_detail(
    min_zoom: u8,
    max_zoom: Option<u8>,
    detail_zooms: Seq<u8>,
)
    ensures
        max_zoom matches Some(zoom) ==> highest_zoom(min_zoom, max_zoom, detail_zooms) == zoom,
        max_zoom is None && detail_zooms.len() == 0 ==> highest_zoom(
            min_zoom,
            max_zoom,
            detail_zooms,
        ) == min_zoom,
        max_zoom is None && detail_zooms.len() > 0 ==> {
            &&& detail_zooms.contains(highest_zoom(min_zoom, max_zoom, detail_zooms))
            &&& forall|i: int|
                0 <= i < detail_zooms.len() ==> (#[trigger] detail_zooms[i]) <= highest_zoom(
                    min_zoom,
                    max_zoom,
                    detail_zooms,
                )
        },
{
    let n = detail_zooms.len();
    lemma_highest(0, detail_zooms, n);
    if n > 0 {
        assert(detail_zooms[0] <= highest(0, detail_zooms, n));
        if highest(0, detail_zooms, n) == 0 {
            assert(detail_zooms[0] == 0);
        }
    }
}

/// Renaming gives the bands of every layer, place by place, the names of the first layer's bands,
/// and changes nothing else of a product.
pub proof fn law_all_layers_are_renamed_alike(
    selected: Seq<PreparedProduct>,
    layers: Seq<PreparedProduct>,
    args: Seq<Seq<char>>,
    i: int,
    b: int,
)
    requires
        are_renamed_layers(selected, layers, args),
        args.len() > 0,
        0 <= i < selected.len(),
        0 <= b < selected[i].spec.band_specs@.len(),
        b < selected[0].spec.band_specs@.len(),
        band_names(selected[0].spec.band_specs@).no_duplicates(),
    ensures
        layers.len() == selected.len(),
        layers[i].spec.band_specs@.len() == selected[i].spec.band_specs@.len(),
        layers[i].spec.band_specs@[b].name@ == layers[0].spec.band_specs@[b].name@,
        layers[i].chunks == selected[i].chunks,
        layers[i].product_id == selected[i].product_id,
        layers[i].spec.bounds == selected[i].spec.bounds,
        layers[i].spec.aggregation == selected[i].spec.aggregation,
        layers[i].spec.base_z == selected[i].spec.base_z,
        layers[i].spec.band_specs@[b].max == selected[i].spec.band_specs@[b].max,
        layers[i].spec.band_specs@[b].min == selected[i].spec.band_specs@[b].min,
        layers[i].spec.band_specs@[b].reference_value
            == selected[i].spec.band_specs@[b].reference_value,
        layers[i].spec.band_specs@[b].binary_scale == selected[i].spec.band_specs@[b].binary_scale,
        layers[i].spec.band_specs@[b].decimal_scale
            == selected[i].spec.band_specs@[b].decimal_scale,
{
    let names = band_renaming(selected, args).names;
    assert(is_renamed(selected[i], layers[i], names));
    assert(is_renamed(selected[0], layers[0], names));
    law_renaming_keeps_names_apart(
        band_names(selected[0].spec.band_specs@),
        args,
        args.len(),
    );
    assert(layers[i].spec.band_specs@[b].name@ == names[b]);
    assert(layers[0].spec.band_specs@[b].name@ == names[b]);
}

/// The layers of an archive share their classes and omissions, and hold the data that they held
/// before.
pub proof fn law_all_layers_are_quantized_alike(
    before: Seq<PreparedProduct>,
    after: Seq<PreparedProduct>,
    readings: Readings,
    omit_zero: bool,
    i: int,
)
    requires
        are_planned(before, after, readings, omit_zero),
        0 <= i < before.len(),
    ensures
        after.len() == before.len(),
        after[i].chunks == before[i].chunks,
        after[i].product_id == before[i].product_id,
        after[i].spec.band_specs == before[i].spec.band_specs,
        after[i].spec.bounds == before[i].spec.bounds,
        after[i].spec.aggregation == before[i].spec.aggregation,
        after[i].spec.base_z == before[i].spec.base_z,
        readings.any(omit_zero) ==> {
            &&& all_classes(after[i].spec.quantize@) == all_classes(after[0].spec.quantize@)
            &&& all_omissions(after[i].spec.omit@) == all_omissions(after[0].spec.omit@)
            &&& resolved(
                readings.quantize@,
                band_names(before[0].spec.band_specs@),
                readings.quantize@.len(),
            ) == Ok::<Seq<Option<Classes>>, ErrorView>(all_classes(after[i].spec.quantize@))
        },
        !readings.any(omit_zero) ==> {
            &&& after[i].spec.quantize == before[i].spec.quantize
            &&& after[i].spec.omit == before[i].spec.omit
        },
{
    if readings.any(omit_zero) {
        let (classes, omissions) = band_quantization(
            before,
            readings.quantize@,
            readings.omit@,
            omit_zero,
            readings.zeros@,
        )->Ok_0;
        assert(is_quantized(before[i], after[i], classes, omissions));
        assert(is_quantized(before[0], after[0], classes, omissions));
    }
}

/// The selected products become layers exactly where their numbers can be counted, they share the
/// grid and base zoom of the first, and all renames can be applied to its bands.
pub proof fn law_selected_products_become_layers(
    selected: Seq<PreparedProduct>,
    start: usize,
    args: Seq<Seq<char>>,
)
    requires
        selected.len() > 0,
    ensures
        layering_fault(selected, start, args) is None <==> {
            &&& start + selected.len() <= usize::MAX
            &&& forall|i: int|
                0 < i < selected.len() ==> compatible(#[trigger] selected[i], selected[0])
            &&& args.len() > 0 ==> renamed(
                band_names(selected[0].spec.band_specs@),
                args,
                args.len(),
            ).error is None
        },
{
    law_strangers_are_found(selected);
}

/// The layers that the options make of products are as many as their names; the name of the layer at
/// a place holds the number of that place, counted from the start; and the layers stand in the order
/// of the selection.
pub proof fn law_layers_have_their_names(
    options: ConvertOptions,
    products: Seq<PreparedProduct>,
    layers: Seq<PreparedProduct>,
    names: Seq<Seq<char>>,
    i: int,
)
    requires
        are_made_layers(options, products, layers, names),
        0 <= i < layers.len(),
    ensures
        names.len() == layers.len(),
        names[i] == substituted(
            options.layer_name_pattern@,
            "{seq}"@,
            numeral((options.layer_seq_start + i) as nat),
        ),
        exists|selected: Seq<PreparedProduct>|
            {
                &&& #[trigger] selects(
                    options,
                    products,
                    Ok::<Seq<PreparedProduct>, ErrorView>(selected),
                )
                &&& selected.len() == layers.len()
                &&& layers[i].product_id == selected[i].product_id
                &&& layers[i].chunks == selected[i].chunks
            },
{
    let selected = choose|selected: Seq<PreparedProduct>|
        {
            &&& #[trigger] selects(
                options,
                products,
                Ok::<Seq<PreparedProduct>, ErrorView>(selected),
            )
            &&& layering_fault(selected, options.layer_seq_start, texts(options.rename@)) is None
            &&& are_renamed_layers(selected, layers, texts(options.rename@))
            &&& names == layer_names(
                options.layer_name_pattern@,
                options.layer_seq_start as nat,
                selected.len(),
            )
        };
    if texts(options.rename@).len() > 0 {
        assert(is_renamed(
            selected[i],
            layers[i],
            band_renaming(selected, texts(options.rename@)).names,
        ));
    }
    assert(layers[i].product_id == selected[i].product_id);
}

/// The plan of an archive is of one piece: its metadata tell the zooms, the bounds and the layer
/// names of the plan, and list a layer for each that it has.
pub proof fn law_plans_are_of_one_piece(
    plan: Plan,
    layers: Seq<PreparedProduct>,
    names: Seq<Seq<char>>,
    options: ConvertOptions,
    readings: Readings,
    archive_name: Seq<char>,
    i: int,
)
    requires
        is_plan(plan, layers, names, options, readings, archive_name),
        names.len() == layers.len(),
        0 <= i < layers.len(),
    ensures
        texts(plan.layer_names@) == names,
        plan.layers@.len() == layers.len(),
        plan.layers@[i].chunks == layers[i].chunks,
        plan.metadata.name@ == archive_name,
        plan.metadata.minzoom == options.min_zoom,
        plan.metadata.maxzoom == plan.max_zoom,
        options.min_zoom <= plan.max_zoom,
        options.max_zoom matches Some(zoom) ==> plan.max_zoom == zoom,
        plan.metadata.bounds@ == plan.bounds@,
        plan.metadata.vector_layers@.len() == layers.len(),
        plan.metadata.vector_layers@[i].id@ == names[i],
{
    law_all_layers_are_quantized_alike(layers, plan.layers@, readings, options.omit_zero, i);
    law_metadata_lists_the_layers(
        plan.metadata,
        archive_name,
        plan.layers@,
        names,
        plan.bounds@,
        options.min_zoom,
        plan.max_zoom,
        i,
    );
}

/// The edges of the world are at 180 degrees of longitude and 90 degrees of latitude, on either
/// side of zero.
pub proof fn law_the_world_ends_at_its_edges()
    ensures
        (Number { bits: 0x4066_8000_0000_0000 }).units() == 180 * pow2(1074),
        (Number { bits: 0xc066_8000_0000_0000 }).units() == -(180 * pow2(1074)),
        (Number { bits: 0x4056_8000_0000_0000 }).units() == 90 * pow2(1074),
        (Number { bits: 0xc056_8000_0000_0000 }).units() == -(90 * pow2(1074)),
{
    lemma2_to64_rest();
    lemma_pow2_adds(1029, 45);
    lemma_pow2_adds(1028, 46);
    lemma2_to64();
    let (east, north) = (0x4066_8000_0000_0000int, 0x4056_8000_0000_0000int);
    assert(magnitude_units(east) == 180 * pow2(1074)) by {
        assert(east / 0x10_0000_0000_0000 == 1030);
        assert(east % 0x10_0000_0000_0000 == 0x6_8000_0000_0000);
        let p = pow2(1029) as int;
        assert(pow2(45) * p == p * pow2(45)) by (nonlinear_arith);
        assert((0x10_0000_0000_0000 + 0x6_8000_0000_0000) * p == 180 * (p * pow2(45)))
            by (nonlinear_arith)
            requires
                pow2(45) == 0x2000_0000_0000,
        ;
    }
    assert(magnitude_units(north) == 90 * pow2(1074)) by {
        assert(north / 0x10_0000_0000_0000 == 1029);
        assert(north % 0x10_0000_0000_0000 == 0x6_8000_0000_0000);
        let p = pow2(1028) as int;
        assert(pow2(46) * p == p * pow2(46)) by (nonlinear_arith);
        assert((0x10_0000_0000_0000 + 0x6_8000_0000_0000) * p == 90 * (p * pow2(46)))
            by (nonlinear_arith)
            requires
                pow2(46) == 0x4000_0000_0000,
        ;
    }
}

} // verus!
