//! What an archive says of itself.
use crate::error::ErrorView;
use crate::model::PreparedProduct;
use crate::number::Number;
use crate::quantize::{
    all_classes, is_about, lemma_argument_of, list_of, resolved, Classes, QuantizeArg, Reading,
};
use crate::text::{in_text_order, lemma_precedes_irreflexive, sorted_distinct, texts};
use crate::vectors::copied;
use vstd::prelude::*;
use vstd::string::*;

verus! {

/// A layer of the archive.
#[derive(Debug)]
pub struct VectorLayer {
    pub id: String,
    pub minzoom: u8,
    pub maxzoom: u8,
    /// The names of the attributes, which are all numbers.
    pub fields: Vec<String>,
}

/// How the values of a band were quantized.
#[derive(Debug)]
pub struct QuantizationNote {
    pub band: String,
    pub bounds: Vec<Number>,
    pub outputs: Vec<Number>,
}

/// What an archive says of itself.
#[derive(Debug)]
pub struct Metadata {
    pub name: String,
    pub description: String,
    pub format: String,
    pub kind: String,
    pub generator: String,
    pub version: String,
    pub minzoom: u8,
    pub maxzoom: u8,
    /// West, south, east and north.
    pub bounds: [Number; 4],
    pub vector_layers: Vec<VectorLayer>,
    /// The values of quantized bands are representatives of classes, which nothing else tells.
    pub quantization: Vec<QuantizationNote>,
}

/// The names of the bands of a product.
pub open spec fn product_fields(product: PreparedProduct) -> Seq<Seq<char>> {
    product.spec.band_specs@.map_values(|band: crate::model::BandSpec| band.name@)
}

/// The layer is that of a product: its fields are the product's bands, each once and in order.
pub open spec fn is_layer(
    layer: VectorLayer,
    product: PreparedProduct,
    id: Seq<char>,
    min_zoom: u8,
    max_zoom: u8,
) -> bool {
    &&& layer.id@ == id
    &&& layer.minzoom == min_zoom
    &&& layer.maxzoom == max_zoom
    &&& in_text_order(texts(layer.fields@))
    &&& forall|name: Seq<char>| #[trigger]
        texts(layer.fields@).contains(name) <==> product_fields(product).contains(name)
}

/// How a band was quantized, in terms of sequences.
#[verifier::ext_equal]
pub struct NoteView {
    pub band: Seq<char>,
    pub bounds: Seq<Number>,
    pub outputs: Seq<Number>,
}

impl View for QuantizationNote {
    type V = NoteView;

    open spec fn view(&self) -> NoteView {
        NoteView { band: self.band@, bounds: self.bounds@, outputs: self.outputs@ }
    }
}

/// The notes on the quantized ones of the first `n` bands of a product.
pub open spec fn notes_of(product: PreparedProduct, n: nat) -> Seq<NoteView>
    decreases n,
{
    if n == 0 {
        Seq::empty()
    } else {
        let before = notes_of(product, (n - 1) as nat);
        match product.spec.quantize@[n - 1] {
            None => before,
            Some(quantize) => before.push(
                NoteView {
                    band: product.spec.band_specs@[n - 1].name@,
                    bounds: quantize@.bounds,
                    outputs: quantize@.outputs,
                },
            ),
        }
    }
}

/// The number of bands that have both a name and a quantization.
pub open spec fn noted_bands(product: PreparedProduct) -> nat {
    if product.spec.quantize@.len() < product.spec.band_specs@.len() {
        product.spec.quantize@.len()
    } else {
        product.spec.band_specs@.len()
    }
}

/// The notes as views.
pub open spec fn note_views(notes: Seq<QuantizationNote>) -> Seq<NoteView> {
    notes.map_values(|note: QuantizationNote| note@)
}

/// The number of layers: there is one for each product that has a name.
pub open spec fn layer_count(products: Seq<PreparedProduct>, names: Seq<Seq<char>>) -> nat {
    if products.len() < names.len() {
        products.len()
    } else {
        names.len()
    }
}

/// The metadata is that of an archive with these layers.
pub open spec fn is_metadata(
    metadata: Metadata,
    archive_name: Seq<char>,
    products: Seq<PreparedProduct>,
    names: Seq<Seq<char>>,
    bounds: Seq<Number>,
    min_zoom: u8,
    max_zoom: u8,
) -> bool {
    &&& metadata.name@ == archive_name
    &&& metadata.description@ == ""@
    &&& metadata.format@ == "pbf"@
    &&& metadata.kind@ == "overlay"@
    &&& metadata.generator@ == "grib2pmtiles"@
    &&& metadata.version@ == "1.0.0"@
    &&& metadata.minzoom == min_zoom
    &&& metadata.maxzoom == max_zoom
    &&& metadata.bounds@ == bounds
    &&& metadata.vector_layers@.len() == layer_count(products, names)
    &&& forall|i: int|
        0 <= i < metadata.vector_layers@.len() ==> is_layer(
            #[trigger] metadata.vector_layers@[i],
            products[i],
            names[i],
            min_zoom,
            max_zoom,
        )
    &&& note_views(metadata.quantization@) == (if products.len() == 0 {
        Seq::empty()
    } else {
        notes_of(products[0], noted_bands(products[0]))
    })
}

/// The fields of a product's layer.
fn layer_fields(product: &PreparedProduct) -> (fields: Vec<String>)
    ensures
        in_text_order(texts(fields@)),
        forall|name: Seq<char>| #[trigger]
            texts(fields@).contains(name) <==> product_fields(*product).contains(name),
{
    let names = crate::archive::names_of(&product.spec.band_specs);
    proof {
        assert(crate::archive::band_names(product.spec.band_specs@) =~= product_fields(*product));
    }
    sorted_distinct(&names)
}

/// The notes on the quantized bands of a product.
fn quantization_notes(product: &PreparedProduct) -> (notes: Vec<QuantizationNote>)
    ensures
        note_views(notes@) == notes_of(*product, noted_bands(*product)),
{
    let count: usize = if product.spec.quantize.len() < product.spec.band_specs.len() {
        product.spec.quantize.len()
    } else {
        product.spec.band_specs.len()
    };
    let mut notes: Vec<QuantizationNote> = Vec::new();
    proof {
        assert(note_views(notes@) =~= Seq::empty());
    }
    for b in 0..count
        invariant
            count == noted_bands(*product),
            note_views(notes@) == notes_of(*product, b as nat),
    {
        if let Some(quantize) = &product.spec.quantize[b] {
            let note = QuantizationNote {
                band: product.spec.band_specs[b].name.clone(),
                bounds: copied(quantize.bounds()),
                outputs: copied(quantize.outputs()),
            };
            let ghost before = notes@;
            notes.push(note);
            proof {
                assert(note_views(notes@) =~= note_views(before).push(note@));
            }
        }
    }
    notes
}

/// What an archive with these layers says of itself.
pub fn generate_metadata(
    archive_name: &str,
    products: &Vec<PreparedProduct>,
    layer_names: &Vec<String>,
    bounds: [Number; 4],
    min_zoom: u8,
    max_zoom: u8,
) -> (metadata: Metadata)
    ensures
        is_metadata(
            metadata,
            archive_name@,
            products@,
            texts(layer_names@),
            bounds@,
            min_zoom,
            max_zoom,
        ),
{
    let count: usize = if products.len() < layer_names.len() {
        products.len()
    } else {
        layer_names.len()
    };
    let mut vector_layers: Vec<VectorLayer> = Vec::new();
    for i in 0..count
        invariant
            count == layer_count(products@, texts(layer_names@)),
            vector_layers@.len() == i,
            forall|k: int|
                0 <= k < i ==> is_layer(
                    #[trigger] vector_layers@[k],
                    products@[k],
                    texts(layer_names@)[k],
                    min_zoom,
                    max_zoom,
                ),
    {
        vector_layers.push(
            VectorLayer {
                id: layer_names[i].clone(),
                minzoom: min_zoom,
                maxzoom: max_zoom,
                fields: layer_fields(&products[i]),
            },
        );
    }
    let quantization = if products.len() == 0 {
        Vec::new()
    } else {
        quantization_notes(&products[0])
    };
    proof {
        if products@.len() == 0 {
            assert(note_views(quantization@) =~= Seq::empty());
        }
    }
    Metadata {
        name: archive_name.to_owned(),
        description: "".to_owned(),
        format: "pbf".to_owned(),
        kind: "overlay".to_owned(),
        generator: "grib2pmtiles".to_owned(),
        version: "1.0.0".to_owned(),
        minzoom: min_zoom,
        maxzoom: max_zoom,
        bounds,
        vector_layers,
        quantization,
    }
}

/// Some note is on the band.
pub open spec fn is_noted(notes: Seq<QuantizationNote>, product: PreparedProduct, b: int) -> bool {
    exists|i: int| 0 <= i < notes.len() && notes_band(#[trigger] notes[i], product, b)
}

/// The note is on some quantized band.
pub open spec fn notes_some_band(note: QuantizationNote, product: PreparedProduct) -> bool {
    exists|b: int|
        {
            &&& 0 <= b < product.spec.quantize@.len()
            &&& #[trigger] product.spec.quantize@[b] is Some
            &&& notes_band(note, product, b)
        }
}

/// The metadata of an archive notes every quantized band of the first layer, under the name that
/// the band has, with the boundary of each class and the number that the class emits; and it notes
/// no other band.
pub proof fn law_metadata_notes_the_classes(
    metadata: Metadata,
    archive_name: Seq<char>,
    products: Seq<PreparedProduct>,
    names: Seq<Seq<char>>,
    bounds: Seq<Number>,
    min_zoom: u8,
    max_zoom: u8,
)
    requires
        is_metadata(metadata, archive_name, products, names, bounds, min_zoom, max_zoom),
        products.len() > 0,
        products[0].spec.quantize@.len() == products[0].spec.band_specs@.len(),
    ensures
        forall|b: int|
            0 <= b < products[0].spec.quantize@.len() && products[0].spec.quantize@[b] is Some
                ==> #[trigger] is_noted(metadata.quantization@, products[0], b),
        forall|i: int|
            0 <= i < metadata.quantization@.len() ==> notes_some_band(
                #[trigger] metadata.quantization@[i],
                products[0],
            ),
{
    let product = products[0];
    let notes = metadata.quantization@;
    let views = note_views(notes);
    let n = noted_bands(product);
    assert forall|b: int|
        0 <= b < product.spec.quantize@.len() && product.spec.quantize@[b] is Some implies #[trigger] is_noted(
        notes,
        product,
        b,
    ) by {
        lemma_band_is_noted(product, n, b);
        let i = choose|i: int|
            0 <= i < notes_of(product, n).len() && is_note_on(
                #[trigger] notes_of(product, n)[i],
                product,
                b,
            );
        assert(views[i] == notes[i]@);
        assert(notes_band(notes[i], product, b));
    }
    assert forall|i: int| 0 <= i < notes.len() implies notes_some_band(
        #[trigger] notes[i],
        product,
    ) by {
        assert(views[i] == notes[i]@);
        lemma_note_is_on_a_band(product, n, i);
        let b = choose|b: int|
            {
                &&& 0 <= b < n
                &&& #[trigger] product.spec.quantize@[b] is Some
                &&& is_note_on(notes_of(product, n)[i], product, b)
            };
        assert(product.spec.quantize@[b] is Some);
        assert(notes_band(notes[i], product, b));
    }
}

/// The note is on a band of a product: it has the name of the band, and tells class by class the
/// boundary and the number that cells of the class carry.
pub open spec fn notes_band(note: QuantizationNote, product: PreparedProduct, b: int) -> bool {
    let classes = product.spec.quantize@[b]->Some_0@;
    &&& note.band@ == product.spec.band_specs@[b].name@
    &&& note.bounds@.len() == classes.bounds.len()
    &&& note.outputs@.len() == classes.outputs.len()
    &&& forall|c: int|
        0 <= c < classes.bounds.len() ==> #[trigger] note.bounds@[c] == classes.bounds[c]
    &&& forall|c: int|
        0 <= c < classes.outputs.len() ==> #[trigger] note.outputs@[c] == classes.outputs[c]
}

/// The same of a note in terms of sequences.
spec fn is_note_on(note: NoteView, product: PreparedProduct, b: int) -> bool {
    let classes = product.spec.quantize@[b]->Some_0@;
    &&& note.band == product.spec.band_specs@[b].name@
    &&& note.bounds == classes.bounds
    &&& note.outputs == classes.outputs
}

proof fn lemma_band_is_noted(product: PreparedProduct, n: nat, b: int)
    requires
        0 <= b < n,
        product.spec.quantize@[b] is Some,
    ensures
        exists|i: int|
            0 <= i < notes_of(product, n).len() && is_note_on(
                #[trigger] notes_of(product, n)[i],
                product,
                b,
            ),
    decreases n,
{
    let all = notes_of(product, n);
    let before = notes_of(product, (n - 1) as nat);
    if b == n - 1 {
        assert(is_note_on(all[before.len() as int], product, b));
    } else {
        lemma_band_is_noted(product, (n - 1) as nat, b);
        let i = choose|i: int|
            0 <= i < before.len() && is_note_on(#[trigger] before[i], product, b);
        assert(all[i] == before[i]);
    }
}

proof fn lemma_note_is_on_a_band(product: PreparedProduct, n: nat, i: int)
    requires
        0 <= i < notes_of(product, n).len(),
    ensures
        exists|b: int|
            {
                &&& 0 <= b < n
                &&& #[trigger] product.spec.quantize@[b] is Some
                &&& is_note_on(notes_of(product, n)[i], product, b)
            },
    decreases n,
{
    let all = notes_of(product, n);
    let before = notes_of(product, (n - 1) as nat);
    if i < before.len() {
        lemma_note_is_on_a_band(product, (n - 1) as nat, i);
        let b = choose|b: int|
            {
                &&& 0 <= b < n - 1
                &&& #[trigger] product.spec.quantize@[b] is Some
                &&& is_note_on(before[i], product, b)
            };
        assert(product.spec.quantize@[b] is Some && is_note_on(all[i], product, b));
    } else {
        assert(product.spec.quantize@[n - 1] is Some && is_note_on(all[i], product, n - 1));
    }
}

/// Some band has the name.
pub open spec fn has_band(bands: Seq<crate::model::BandSpec>, name: Seq<char>) -> bool {
    exists|b: int| 0 <= b < bands.len() && (#[trigger] bands[b]).name@ == name
}

/// The metadata lists one layer for each product, in their order: under the layer's name, with the
/// zooms of the archive, and with the names of the product's bands as its fields, each once.
pub proof fn law_metadata_lists_the_layers(
    metadata: Metadata,
    archive_name: Seq<char>,
    products: Seq<PreparedProduct>,
    names: Seq<Seq<char>>,
    bounds: Seq<Number>,
    min_zoom: u8,
    max_zoom: u8,
    i: int,
)
    requires
        is_metadata(metadata, archive_name, products, names, bounds, min_zoom, max_zoom),
        products.len() == names.len(),
        0 <= i < products.len(),
    ensures
        metadata.name@ == archive_name,
        metadata.minzoom == min_zoom && metadata.maxzoom == max_zoom,
        metadata.bounds@ == bounds,
        metadata.vector_layers@.len() == products.len(),
        metadata.vector_layers@[i].id@ == names[i],
        metadata.vector_layers@[i].minzoom == min_zoom,
        metadata.vector_layers@[i].maxzoom == max_zoom,
        forall|name: Seq<char>| #[trigger]
            texts(metadata.vector_layers@[i].fields@).contains(name) <==> has_band(
                products[i].spec.band_specs@,
                name,
            ),
        texts(metadata.vector_layers@[i].fields@).no_duplicates(),
{
    let layer = metadata.vector_layers@[i];
    let fields = texts(layer.fields@);
    let bands = products[i].spec.band_specs@;
    assert(is_layer(layer, products[i], names[i], min_zoom, max_zoom));
    let all = product_fields(products[i]);
    assert forall|name: Seq<char>| #[trigger] fields.contains(name) <==> has_band(bands, name) by {
        assert(fields.contains(name) <==> all.contains(name));
        if has_band(bands, name) {
            let b = choose|b: int| 0 <= b < bands.len() && (#[trigger] bands[b]).name@ == name;
            assert(all[b] == name);
        }
        if all.contains(name) {
            let b = choose|b: int| 0 <= b < all.len() && all[b] == name;
            assert(bands[b].name@ == name);
        }
    }
    assert forall|f: int, g: int| 0 <= f < fields.len() && 0 <= g < fields.len() && f
        != g implies fields[f] != fields[g] by {
        lemma_precedes_irreflexive(fields[f]);
    }
}

/// How many of the first `n` bands of a product are quantized.
pub open spec fn quantized_before(product: PreparedProduct, n: nat) -> nat
    decreases n,
{
    if n == 0 {
        0
    } else if product.spec.quantize@[n - 1] is Some {
        quantized_before(product, (n - 1) as nat) + 1
    } else {
        quantized_before(product, (n - 1) as nat)
    }
}

proof fn lemma_notes_in_order(product: PreparedProduct, n: nat, b: int)
    requires
        0 <= b < n,
        product.spec.quantize@[b] is Some,
    ensures
        quantized_before(product, b as nat) < notes_of(product, n).len(),
        is_note_on(
            notes_of(product, n)[quantized_before(product, b as nat) as int],
            product,
            b,
        ),
    decreases n,
{
    let m = (n - 1) as nat;
    lemma_notes_len(product, m);
    if b < m {
        lemma_notes_in_order(product, m, b);
    }
}

proof fn lemma_notes_len(product: PreparedProduct, n: nat)
    ensures
        notes_of(product, n).len() == quantized_before(product, n),
    decreases n,
{
    if n > 0 {
        lemma_notes_len(product, (n - 1) as nat);
    }
}

/// The notes of an archive come in the order of the bands, one for each quantized band.
pub proof fn law_notes_come_in_the_order_of_bands(
    metadata: Metadata,
    archive_name: Seq<char>,
    products: Seq<PreparedProduct>,
    names: Seq<Seq<char>>,
    bounds: Seq<Number>,
    min_zoom: u8,
    max_zoom: u8,
    b: int,
)
    requires
        is_metadata(metadata, archive_name, products, names, bounds, min_zoom, max_zoom),
        products.len() > 0,
        products[0].spec.quantize@.len() == products[0].spec.band_specs@.len(),
        0 <= b < products[0].spec.quantize@.len(),
        products[0].spec.quantize@[b] is Some,
    ensures
        metadata.quantization@.len() == quantized_before(
            products[0],
            products[0].spec.quantize@.len(),
        ),
        quantized_before(products[0], b as nat) < metadata.quantization@.len(),
        notes_band(
            metadata.quantization@[quantized_before(products[0], b as nat) as int],
            products[0],
            b,
        ),
{
    let product = products[0];
    let n = noted_bands(product);
    lemma_notes_len(product, n);
    lemma_notes_in_order(product, n, b);
    let i = quantized_before(product, b as nat) as int;
    assert(note_views(metadata.quantization@)[i] == metadata.quantization@[i]@);
}

/// The note tells what an argument writes down: entry by entry the number in front of the colon as
/// the boundary, and the number behind it as what the class emits; an entry without a colon emits
/// its boundary.
pub open spec fn notes_argument(note: QuantizationNote, arg: QuantizeArg) -> bool {
    let list = list_of(arg.text@);
    &&& note.bounds@.len() == arg.entries@.len()
    &&& note.outputs@.len() == arg.entries@.len()
    &&& forall|c: int|
        0 <= c < arg.entries@.len() ==> {
            &&& (#[trigger] arg.entries@[c]).bound == Reading::Finite(note.bounds@[c])
            &&& list[c].contains(':') ==> arg.entries@[c].output == Reading::Finite(
                note.outputs@[c],
            )
            &&& !list[c].contains(':') ==> note.outputs@[c] == note.bounds@[c]
        }
}

/// Some argument is about a band, and the note tells what it writes down.
pub open spec fn notes_some_argument(
    note: QuantizationNote,
    args: Seq<QuantizeArg>,
    names: Seq<Seq<char>>,
    b: int,
) -> bool {
    exists|a: int|
        {
            &&& 0 <= a < args.len()
            &&& is_about((#[trigger] args[a]).text@, names, b)
            &&& notes_argument(note, args[a])
        }
}

/// A note on a band tells, class by class, what the argument for that band says: its boundaries, and
/// the numbers behind the colons where there are any.
pub proof fn law_notes_tell_what_was_written(
    note: QuantizationNote,
    product: PreparedProduct,
    args: Seq<QuantizeArg>,
    names: Seq<Seq<char>>,
    b: int,
)
    requires
        forall|i: int|
            0 <= i < args.len() ==> (#[trigger] args[i]).well_formed() && args[i].placed(
                names.len(),
            ),
        resolved(args, names, args.len()) == Ok::<Seq<Option<Classes>>, ErrorView>(
            all_classes(product.spec.quantize@),
        ),
        0 <= b < names.len(),
        b < product.spec.quantize@.len(),
        product.spec.quantize@[b] is Some,
        notes_band(note, product, b),
    ensures
        notes_some_argument(note, args, names, b),
{
    let quantize = all_classes(product.spec.quantize@);
    assert(quantize[b] == Some(product.spec.quantize@[b]->Some_0@));
    let classes = quantize[b]->Some_0;
    let a = lemma_argument_of(args, names, quantize, b);
    let arg = args[a];
    assert forall|c: int| 0 <= c < arg.entries@.len() implies {
        &&& (#[trigger] arg.entries@[c]).bound == Reading::Finite(note.bounds@[c])
        &&& list_of(arg.text@)[c].contains(':') ==> arg.entries@[c].output == Reading::Finite(
            note.outputs@[c],
        )
        &&& !list_of(arg.text@)[c].contains(':') ==> note.outputs@[c] == note.bounds@[c]
    } by {
        assert(note.bounds@[c] == classes.bounds[c]);
        assert(note.outputs@[c] == classes.outputs[c]);
    }
    assert(notes_argument(note, arg));
}

/// What an archive says of its form: vector tiles that lie over a map, made by this converter.
pub proof fn law_archives_are_overlays_of_vector_tiles(
    metadata: Metadata,
    archive_name: Seq<char>,
    products: Seq<PreparedProduct>,
    names: Seq<Seq<char>>,
    bounds: Seq<Number>,
    min_zoom: u8,
    max_zoom: u8,
)
    requires
        is_metadata(metadata, archive_name, products, names, bounds, min_zoom, max_zoom),
    ensures
        metadata.format@ == seq!['p', 'b', 'f'],
        metadata.kind@ == seq!['o', 'v', 'e', 'r', 'l', 'a', 'y'],
        metadata.generator@ == "grib2pmtiles"@,
        metadata.description@.len() == 0,
        metadata.version@ == seq!['1', '.', '0', '.', '0'],
{
    reveal_strlit("pbf");
    reveal_strlit("overlay");
    reveal_strlit("");
    reveal_strlit("1.0.0");
    assert("pbf"@ =~= seq!['p', 'b', 'f']);
    assert("overlay"@ =~= seq!['o', 'v', 'e', 'r', 'l', 'a', 'y']);
    assert("1.0.0"@ =~= seq!['1', '.', '0', '.', '0']);
}

} // verus!
