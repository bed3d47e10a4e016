//! What can be wrong with the options or the input.
use crate::number::Number;
use crate::text::{
    decimal, join, joined, numeral, quoted, quoted_text, signed_decimal, signed_numeral, texts,
};
use vstd::prelude::*;
use vstd::string::*;

verus! {

/// The option that an argument belongs to.
#[derive(Clone, Copy, Debug, PartialEq, Eq, Structural)]
pub enum OptionName {
    Quantize,
    Omit,
}

impl OptionName {
    /// The option as it is written.
    pub open spec fn text(self) -> Seq<char> {
        match self {
            OptionName::Quantize => "--quantize"@,
            OptionName::Omit => "--omit"@,
        }
    }

    /// The option as it is written.
    pub fn shown(self) -> (shown: &'static str)
        ensures
            shown@ == self.text(),
    {
        match self {
            OptionName::Quantize => "--quantize",
            OptionName::Omit => "--omit",
        }
    }
}

/// What is wrong.
#[derive(Debug)]
pub enum Error {
    /// A `--quantize` list has an empty entry.
    EmptyEntry,
    /// A text that should be a number is none.
    NotANumber { text: String },
    /// A number is infinite or undefined.
    NotFinite { text: String },
    /// A boundary does not exceed the one before it.
    NotIncreasing { bound: Number, previous: Number },
    /// Two boundaries fall on one raw value.
    TooFine { band: String, raw: i32 },
    /// An argument does not say which of several bands it is about.
    MissingBandPrefix { option: OptionName, bands: Vec<String> },
    /// An argument names a band that the product does not have.
    UnknownBand { option: OptionName, band: String, bands: Vec<String> },
    /// Two arguments quantize one band.
    QuantizedTwice { band: String },
    /// No class of a quantized band emits the value to omit.
    NotAClass { value: Number, band: String, outputs: Vec<Number> },
    /// The value to omit is not one that the band can hold.
    BetweenValues { value: Number, band: String },
    /// Nothing of a band would be left.
    EveryClassOmitted { band: String },
    /// A `--rename` argument lacks a side.
    InvalidRename { arg: String },
    /// A `--rename` argument names a band that the product does not have.
    UnknownRename { from: String, bands: Vec<String> },
    /// A band would get the name of another.
    RenameCollision { to: String },
    /// The layer name pattern has no place for the number.
    MissingPlaceholder,
    /// No layers are asked for.
    NoLayers,
    /// The input holds nothing to convert.
    NoProducts,
    /// The requested product is not in the input.
    ProductNotPresent { requested: String, available: Vec<String> },
    /// The input holds several products and none was requested.
    SeveralProducts { available: Vec<String> },
    /// No product is valid late enough.
    NothingFarEnough { minutes: i64, product: String },
    /// All products are analyses.
    OnlyAnalyses { product: String },
    /// The number of the last layer leaves the machine's range.
    LayerNumbersOverflow,
    /// Two products do not share a grid.
    IncompatibleGrids { first: String, other: String },
    /// The lowest zoom lies above the highest.
    EmptyZoomRange { min_zoom: u8, max_zoom: u8 },
    /// The end of the tile data has no 64-bit offset.
    DataRangeOverflow,
    /// An archive ends within its header.
    TruncatedHeader,
}

/// What is wrong, in terms of characters and sequences.
pub enum ErrorView {
    EmptyEntry,
    NotANumber { text: Seq<char> },
    NotFinite { text: Seq<char> },
    NotIncreasing { bound: Number, previous: Number },
    TooFine { band: Seq<char>, raw: i32 },
    MissingBandPrefix { option: OptionName, bands: Seq<Seq<char>> },
    UnknownBand { option: OptionName, band: Seq<char>, bands: Seq<Seq<char>> },
    QuantizedTwice { band: Seq<char> },
    NotAClass { value: Number, band: Seq<char>, outputs: Seq<Number> },
    BetweenValues { value: Number, band: Seq<char> },
    EveryClassOmitted { band: Seq<char> },
    InvalidRename { arg: Seq<char> },
    UnknownRename { from: Seq<char>, bands: Seq<Seq<char>> },
    RenameCollision { to: Seq<char> },
    MissingPlaceholder,
    NoLayers,
    NoProducts,
    ProductNotPresent { requested: Seq<char>, available: Seq<Seq<char>> },
    SeveralProducts { available: Seq<Seq<char>> },
    NothingFarEnough { minutes: i64, product: Seq<char> },
    OnlyAnalyses { product: Seq<char> },
    LayerNumbersOverflow,
    IncompatibleGrids { first: Seq<char>, other: Seq<char> },
    EmptyZoomRange { min_zoom: u8, max_zoom: u8 },
    DataRangeOverflow,
    TruncatedHeader,
}

impl View for Error {
    type V = ErrorView;

    open spec fn view(&self) -> ErrorView {
        match self {
            Error::EmptyEntry => ErrorView::EmptyEntry,
            Error::NotANumber { text } => ErrorView::NotANumber { text: text@ },
            Error::NotFinite { text } => ErrorView::NotFinite { text: text@ },
            Error::NotIncreasing { bound, previous } => ErrorView::NotIncreasing {
                bound: *bound,
                previous: *previous,
            },
            Error::TooFine { band, raw } => ErrorView::TooFine { band: band@, raw: *raw },
            Error::MissingBandPrefix { option, bands } => ErrorView::MissingBandPrefix {
                option: *option,
                bands: texts(bands@),
            },
            Error::UnknownBand { option, band, bands } => ErrorView::UnknownBand {
                option: *option,
                band: band@,
                bands: texts(bands@),
            },
            Error::QuantizedTwice { band } => ErrorView::QuantizedTwice { band: band@ },
            Error::NotAClass { value, band, outputs } => ErrorView::NotAClass {
                value: *value,
                band: band@,
                outputs: outputs@,
            },
            Error::BetweenValues { value, band } => ErrorView::BetweenValues {
                value: *value,
                band: band@,
            },
            Error::EveryClassOmitted { band } => ErrorView::EveryClassOmitted { band: band@ },
            Error::InvalidRename { arg } => ErrorView::InvalidRename { arg: arg@ },
            Error::UnknownRename { from, bands } => ErrorView::UnknownRename {
                from: from@,
                bands: texts(bands@),
            },
            Error::RenameCollision { to } => ErrorView::RenameCollision { to: to@ },
            Error::MissingPlaceholder => ErrorView::MissingPlaceholder,
            Error::NoLayers => ErrorView::NoLayers,
            Error::NoProducts => ErrorView::NoProducts,
            Error::ProductNotPresent { requested, available } => ErrorView::ProductNotPresent {
                requested: requested@,
                available: texts(available@),
            },
            Error::SeveralProducts { available } => ErrorView::SeveralProducts {
                available: texts(available@),
            },
            Error::NothingFarEnough { minutes, product } => ErrorView::NothingFarEnough {
                minutes: *minutes,
                product: product@,
            },
            Error::OnlyAnalyses { product } => ErrorView::OnlyAnalyses { product: product@ },
            Error::LayerNumbersOverflow => ErrorView::LayerNumbersOverflow,
            Error::IncompatibleGrids { first, other } => ErrorView::IncompatibleGrids {
                first: first@,
                other: other@,
            },
            Error::EmptyZoomRange { min_zoom, max_zoom } => ErrorView::EmptyZoomRange {
                min_zoom: *min_zoom,
                max_zoom: *max_zoom,
            },
            Error::DataRangeOverflow => ErrorView::DataRangeOverflow,
            Error::TruncatedHeader => ErrorView::TruncatedHeader,
        }
    }
}

/// The names, each quoted.
pub open spec fn all_quoted(names: Seq<Seq<char>>) -> Seq<Seq<char>> {
    names.map_values(|name: Seq<char>| quoted_text(name))
}

/// How many bands there are, and their names.
pub open spec fn band_list(names: Seq<Seq<char>>) -> Seq<char> {
    if names.len() == 0 {
        "no bands"@
    } else {
        numeral(names.len()) + " band(s): "@ + joined(all_quoted(names), ", "@)
    }
}

/// One line for each product, with the option that selects it.
pub open spec fn product_list(products: Seq<Seq<char>>) -> Seq<char> {
    joined(products.map_values(|product: Seq<char>| "  --product "@ + product), "\n"@)
}

/// The name of the first band, or a stand-in.
pub open spec fn first_name(names: Seq<Seq<char>>) -> Seq<char> {
    if names.len() == 0 {
        "band"@
    } else {
        names[0]
    }
}

/// The names, each quoted.
fn quote_all(names: &Vec<String>) -> (result: Vec<String>)
    ensures
        texts(result@) == all_quoted(texts(names@)),
{
    let mut result: Vec<String> = Vec::new();
    for i in 0..names.len()
        invariant
            texts(result@) == all_quoted(texts(names@)).take(i as int),
    {
        let name = quoted(names[i].as_str());
        proof {
            let all = all_quoted(texts(names@));
            assert(all.take(i as int + 1) =~= all.take(i as int).push(name@));
            assert(texts(result@.push(name)) =~= texts(result@).push(name@));
        }
        result.push(name);
    }
    proof {
        let all = all_quoted(texts(names@));
        assert(all.take(all.len() as int) =~= all);
    }
    result
}

/// How many bands there are, and their names.
pub fn band_choices(names: &Vec<String>) -> (result: String)
    ensures
        result@ == band_list(texts(names@)),
{
    if names.len() == 0 {
        return "no bands".to_owned();
    }
    let mut result = decimal(names.len() as u64);
    result.append(" band(s): ");
    let list = join(&quote_all(names), ", ");
    result.append(list.as_str());
    result
}

/// One line for each product, with the option that selects it.
pub fn product_choices(products: &Vec<String>) -> (result: String)
    ensures
        result@ == product_list(texts(products@)),
{
    let ghost all = texts(products@).map_values(|product: Seq<char>| "  --product "@ + product);
    let mut lines: Vec<String> = Vec::new();
    for i in 0..products.len()
        invariant
            all == texts(products@).map_values(|product: Seq<char>| "  --product "@ + product),
            texts(lines@) == all.take(i as int),
    {
        let mut line = "  --product ".to_owned();
        line.append(products[i].as_str());
        proof {
            assert(all.take(i as int + 1) =~= all.take(i as int).push(line@));
            assert(texts(lines@.push(line)) =~= texts(lines@).push(line@));
        }
        lines.push(line);
    }
    proof {
        assert(all.take(all.len() as int) =~= all);
    }
    join(&lines, "\n")
}

impl ErrorView {
    /// The numbers that the message shows, in order.
    pub open spec fn numbers(self) -> Seq<Number> {
        match self {
            ErrorView::NotIncreasing { bound, previous } => seq![bound, previous],
            ErrorView::NotAClass { value, outputs, .. } => seq![value] + outputs,
            ErrorView::BetweenValues { value, .. } => seq![value],
            _ => Seq::empty(),
        }
    }

    /// The message, where `shown` holds the decimal forms of the numbers in it.
    pub open spec fn message(self, shown: Seq<Seq<char>>) -> Seq<char> {
        match self {
            ErrorView::EmptyEntry => {
                "--quantize contains an empty entry; expected <boundary>[:<value>]"@
            },
            ErrorView::NotANumber { text } => "expected a number but found "@ + quoted_text(text),
            ErrorView::NotFinite { text } => "value "@ + quoted_text(text) + " is not finite"@,
            ErrorView::NotIncreasing { .. } => {
                "--quantize boundaries must be strictly increasing, but "@ + shown[0]
                    + " follows "@ + shown[1]
            },
            ErrorView::TooFine { band, raw } => {
                "--quantize boundaries are finer than the resolution of band "@
                    + quoted_text(band) + ": two boundaries both map to raw value "@
                    + signed_numeral(raw as int)
            },
            ErrorView::MissingBandPrefix { option, bands } => {
                option.text() + " needs a band prefix such as "@ + option.text() + " \""@
                    + first_name(bands) + "=1,2,4\" because this product has "@
                    + band_list(bands)
            },
            ErrorView::UnknownBand { option, band, bands } => {
                "unknown band "@ + quoted_text(band) + " in "@ + option.text()
                    + "; this product has "@ + band_list(bands)
            },
            ErrorView::QuantizedTwice { band } => {
                "band "@ + quoted_text(band) + " is quantized more than once"@
            },
            ErrorView::NotAClass { band, .. } => {
                "--omit value "@ + shown[0] + " is not one of the classes of band "@
                    + quoted_text(band) + "; it emits "@ + joined(shown.skip(1), ", "@)
            },
            ErrorView::BetweenValues { band, .. } => {
                "--omit value "@ + shown[0] + " does not exist in band "@ + quoted_text(band)
                    + ": it falls between two representable values"@
            },
            ErrorView::EveryClassOmitted { band } => {
                "--omit would drop every class of band "@ + quoted_text(band)
            },
            ErrorView::InvalidRename { arg } => {
                "--rename expects <from>=<to> but found "@ + quoted_text(arg)
            },
            ErrorView::UnknownRename { from, bands } => {
                "unknown band "@ + quoted_text(from) + " in --rename; this product has "@
                    + joined(all_quoted(bands), ", "@)
            },
            ErrorView::RenameCollision { to } => {
                "--rename target "@ + quoted_text(to)
                    + " collides with another band of this product"@
            },
            ErrorView::MissingPlaceholder => {
                "layer name pattern must contain the {seq} placeholder"@
            },
            ErrorView::NoLayers => "layer count must be greater than zero"@,
            ErrorView::NoProducts => "input contains no convertible value products"@,
            ErrorView::ProductNotPresent { requested, available } => {
                "product `"@ + requested
                    + "` is not present in the input; available choices:\n"@
                    + product_list(available)
            },
            ErrorView::SeveralProducts { available } => {
                "input contains multiple products; select one explicitly:\n"@
                    + product_list(available)
            },
            ErrorView::NothingFarEnough { minutes, product } => {
                "--min-lead-time "@ + signed_numeral(minutes as int)
                    + " removed every product of "@ + product
            },
            ErrorView::OnlyAnalyses { product } => {
                "--skip-analysis removed every product; "@ + product
                    + " contains only analyses"@
            },
            ErrorView::LayerNumbersOverflow => "layer numbers overflow"@,
            ErrorView::IncompatibleGrids { first, other } => {
                "selected products use incompatible grids: "@ + first + " and "@ + other
            },
            ErrorView::EmptyZoomRange { min_zoom, max_zoom } => {
                "minimum zoom "@ + numeral(min_zoom as nat) + " exceeds maximum zoom "@
                    + numeral(max_zoom as nat)
            },
            ErrorView::DataRangeOverflow => "PMTiles data range overflows u64"@,
            ErrorView::TruncatedHeader => "failed to fill whole buffer"@,
        }
    }
}

impl Error {
    /// The numbers that the message shows, in order.
    pub fn numbers(&self) -> (numbers: Vec<Number>)
        ensures
            numbers@ == self@.numbers(),
    {
        let mut numbers: Vec<Number> = Vec::new();
        match self {
            Error::NotIncreasing { bound, previous } => {
                numbers.push(*bound);
                numbers.push(*previous);
            },
            Error::NotAClass { value, outputs, .. } => {
                numbers.push(*value);
                for i in 0..outputs.len()
                    invariant
                        numbers@ == seq![*value] + outputs@.take(i as int),
                {
                    numbers.push(outputs[i]);
                    proof {
                        assert(outputs@.take(i as int + 1) =~= outputs@.take(i as int).push(
                            outputs@[i as int],
                        ));
                    }
                }
                proof {
                    assert(outputs@.take(outputs@.len() as int) =~= outputs@);
                }
            },
            Error::BetweenValues { value, .. } => {
                numbers.push(*value);
            },
            _ => {},
        }
        proof {
            assert(numbers@ =~= self@.numbers());
        }
        numbers
    }

    /// The message, given the decimal forms of the numbers in it.
    pub fn message(&self, shown: &Vec<String>) -> (message: String)
        requires
            shown@.len() == self@.numbers().len(),
        ensures
            message@ == self@.message(texts(shown@)),
    {
        match self {
            Error::EmptyEntry => {
                "--quantize contains an empty entry; expected <boundary>[:<value>]".to_owned()
            },
            Error::NotANumber { text } => {
                let mut message = "expected a number but found ".to_owned();
                message.append(quoted(text.as_str()).as_str());
                message
            },
            Error::NotFinite { text } => {
                let mut message = "value ".to_owned();
                message.append(quoted(text.as_str()).as_str());
                message.append(" is not finite");
                message
            },
            Error::NotIncreasing { .. } => {
                let mut message =
                    "--quantize boundaries must be strictly increasing, but ".to_owned();
                message.append(shown[0].as_str());
                message.append(" follows ");
                message.append(shown[1].as_str());
                message
            },
            Error::TooFine { band, raw } => {
                let mut message =
                    "--quantize boundaries are finer than the resolution of band ".to_owned();
                message.append(quoted(band.as_str()).as_str());
                message.append(": two boundaries both map to raw value ");
                message.append(signed_decimal(*raw as i64).as_str());
                message
            },
            Error::MissingBandPrefix { option, bands } => {
                let mut message = option.shown().to_owned();
                message.append(" needs a band prefix such as ");
                message.append(option.shown());
                message.append(" \"");
                message.append(first_band(bands));
                message.append("=1,2,4\" because this product has ");
                message.append(band_choices(bands).as_str());
                message
            },
            Error::UnknownBand { option, band, bands } => {
                let mut message = "unknown band ".to_owned();
                message.append(quoted(band.as_str()).as_str());
                message.append(" in ");
                message.append(option.shown());
                message.append("; this product has ");
                message.append(band_choices(bands).as_str());
                message
            },
            Error::QuantizedTwice { band } => {
                let mut message = "band ".to_owned();
                message.append(quoted(band.as_str()).as_str());
                message.append(" is quantized more than once");
                message
            },
            Error::NotAClass { band, .. } => {
                let mut message = "--omit value ".to_owned();
                message.append(shown[0].as_str());
                message.append(" is not one of the classes of band ");
                message.append(quoted(band.as_str()).as_str());
                message.append("; it emits ");
                message.append(join_rest(shown).as_str());
                message
            },
            Error::BetweenValues { band, .. } => {
                let mut message = "--omit value ".to_owned();
                message.append(shown[0].as_str());
                message.append(" does not exist in band ");
                message.append(quoted(band.as_str()).as_str());
                message.append(": it falls between two representable values");
                message
            },
            Error::EveryClassOmitted { band } => {
                let mut message = "--omit would drop every class of band ".to_owned();
                message.append(quoted(band.as_str()).as_str());
                message
            },
            Error::InvalidRename { arg } => {
                let mut message = "--rename expects <from>=<to> but found ".to_owned();
                message.append(quoted(arg.as_str()).as_str());
                message
            },
            Error::UnknownRename { from, bands } => {
                let mut message = "unknown band ".to_owned();
                message.append(quoted(from.as_str()).as_str());
                message.append(" in --rename; this product has ");
                message.append(join(&quote_all(bands), ", ").as_str());
                message
            },
            Error::RenameCollision { to } => {
                let mut message = "--rename target ".to_owned();
                message.append(quoted(to.as_str()).as_str());
                message.append(" collides with another band of this product");
                message
            },
            Error::MissingPlaceholder => {
                "layer name pattern must contain the {seq} placeholder".to_owned()
            },
            Error::NoLayers => "layer count must be greater than zero".to_owned(),
            Error::NoProducts => "input contains no convertible value products".to_owned(),
            Error::ProductNotPresent { requested, available } => {
                let mut message = "product `".to_owned();
                message.append(requested.as_str());
                message.append("` is not present in the input; available choices:\n");
                message.append(product_choices(available).as_str());
                message
            },
            Error::SeveralProducts { available } => {
                let mut message =
                    "input contains multiple products; select one explicitly:\n".to_owned();
                message.append(product_choices(available).as_str());
                message
            },
            Error::NothingFarEnough { minutes, product } => {
                let mut message = "--min-lead-time ".to_owned();
                message.append(signed_decimal(*minutes as i64).as_str());
                message.append(" removed every product of ");
                message.append(product.as_str());
                message
            },
            Error::OnlyAnalyses { product } => {
                let mut message = "--skip-analysis removed every product; ".to_owned();
                message.append(product.as_str());
                message.append(" contains only analyses");
                message
            },
            Error::LayerNumbersOverflow => "layer numbers overflow".to_owned(),
            Error::IncompatibleGrids { first, other } => {
                let mut message = "selected products use incompatible grids: ".to_owned();
                message.append(first.as_str());
                message.append(" and ");
                message.append(other.as_str());
                message
            },
            Error::EmptyZoomRange { min_zoom, max_zoom } => {
                let mut message = "minimum zoom ".to_owned();
                message.append(decimal(*min_zoom as u64).as_str());
                message.append(" exceeds maximum zoom ");
                message.append(decimal(*max_zoom as u64).as_str());
                message
            },
            Error::DataRangeOverflow => "PMTiles data range overflows u64".to_owned(),
            Error::TruncatedHeader => "failed to fill whole buffer".to_owned(),
        }
    }
}

/// The name of the first band, or a stand-in.
fn first_band(names: &Vec<String>) -> (name: &str)
    ensures
        name@ == first_name(texts(names@)),
{
    if names.len() == 0 {
        "band"
    } else {
        names[0].as_str()
    }
}

/// All texts but the first, with commas between them.
fn join_rest(items: &Vec<String>) -> (result: String)
    requires
        items@.len() >= 1,
    ensures
        result@ == joined(texts(items@).skip(1), ", "@),
{
    let mut rest: Vec<String> = Vec::new();
    for i in 1..items.len()
        invariant
            items@.len() >= 1,
            texts(rest@) == texts(items@).subrange(1, i as int),
    {
        let item = items[i].clone();
        proof {
            assert(texts(items@).subrange(1, i as int + 1) =~= texts(items@).subrange(
                1,
                i as int,
            ).push(item@));
            assert(texts(rest@.push(item)) =~= texts(rest@).push(item@));
        }
        rest.push(item);
    }
    proof {
        assert(texts(items@).subrange(1, items@.len() as int) =~= texts(items@).skip(1));
    }
    join(&rest, ", ")
}

/// The text holds a part.
pub open spec fn shows(text: Seq<char>, part: Seq<char>) -> bool {
    exists|lead: Seq<char>, trail: Seq<char>|
        #![trigger lead + part + trail]
        text == lead + part + trail
}

/// The text holds two parts, one behind the other.
pub open spec fn shows_both(text: Seq<char>, first: Seq<char>, then: Seq<char>) -> bool {
    exists|lead: Seq<char>, middle: Seq<char>, trail: Seq<char>|
        #![trigger lead + first + middle + then + trail]
        text == lead + first + middle + then + trail
}

proof fn lemma_shows(text: Seq<char>, lead: Seq<char>, part: Seq<char>, trail: Seq<char>)
    requires
        text =~= lead + part + trail,
    ensures
        shows(text, part),
{
    assert(text == lead + part + trail);
}

proof fn lemma_shows_both(
    text: Seq<char>,
    lead: Seq<char>,
    first: Seq<char>,
    middle: Seq<char>,
    then: Seq<char>,
    trail: Seq<char>,
)
    requires
        text =~= lead + first + middle + then + trail,
    ensures
        shows_both(text, first, then),
{
    assert(text == lead + first + middle + then + trail);
}

proof fn lemma_joined_shows(items: Seq<Seq<char>>, separator: Seq<char>, i: int)
    requires
        0 <= i < items.len(),
    ensures
        shows(joined(items, separator), items[i]),
    decreases items.len(),
{
    let all = joined(items, separator);
    let none = Seq::<char>::empty();
    if items.len() == 1 {
        lemma_shows(all, none, items[0], none);
    } else if i == items.len() - 1 {
        lemma_shows(all, joined(items.drop_last(), separator) + separator, items[i], none);
    } else {
        lemma_joined_shows(items.drop_last(), separator, i);
        let rest = joined(items.drop_last(), separator);
        let (lead, trail) = choose|lead: Seq<char>, trail: Seq<char>|
            #![trigger lead + items.drop_last()[i] + trail]
            rest == lead + items.drop_last()[i] + trail;
        lemma_shows(all, lead, items[i], trail + separator + items.last());
    }
}

proof fn lemma_shows_within(
    text: Seq<char>,
    lead: Seq<char>,
    inner: Seq<char>,
    trail: Seq<char>,
    part: Seq<char>,
)
    requires
        text =~= lead + inner + trail,
        shows(inner, part),
    ensures
        shows(text, part),
{
    let (a, b) = choose|a: Seq<char>, b: Seq<char>|
        #![trigger a + part + b]
        inner == a + part + b;
    lemma_shows(text, lead + a, part, b + trail);
}

/// The list of bands tells how many there are and names each; the list of products names each,
/// behind the option that selects it.
pub proof fn law_choices_name_everything(names: Seq<Seq<char>>, i: int)
    requires
        0 <= i < names.len(),
    ensures
        shows(band_list(names), numeral(names.len())),
        shows(band_list(names), quoted_text(names[i])),
        shows(product_list(names), "--product "@ + names[i]),
{
    let quotes = all_quoted(names);
    let list = joined(quotes, ", "@);
    let none = Seq::<char>::empty();
    lemma_joined_shows(quotes, ", "@, i);
    lemma_shows(band_list(names), none, numeral(names.len()), " band(s): "@ + list);
    lemma_shows_within(
        band_list(names),
        numeral(names.len()) + " band(s): "@,
        list,
        none,
        quoted_text(names[i]),
    );
    let lines = names.map_values(|product: Seq<char>| "  --product "@ + product);
    lemma_joined_shows(lines, "\n"@, i);
    reveal_strlit("  --product ");
    reveal_strlit("--product ");
    assert(lines[i] =~= "  --product "@ + names[i]);
    assert("  --product "@ =~= "  "@ + "--product "@) by {
        reveal_strlit("  ");
    }
    lemma_shows(lines[i], "  "@, "--product "@ + names[i], none);
    lemma_shows_within(
        product_list(names),
        none,
        product_list(names),
        none,
        lines[i],
    );
    let (lead, trail) = choose|lead: Seq<char>, trail: Seq<char>|
        #![trigger lead + lines[i] + trail]
        product_list(names) == lead + lines[i] + trail;
    lemma_shows_within(product_list(names), lead, lines[i], trail, "--product "@ + names[i]);
}

/// A message shows what is wrong: the text, band or name that it is about, and where two things do
/// not go together, both in their order.
pub proof fn law_messages_show_what_is_wrong(error: ErrorView, shown: Seq<Seq<char>>)
    requires
        shown.len() == error.numbers().len(),
    ensures
        match error {
            ErrorView::NotANumber { text } => shows(error.message(shown), quoted_text(text)),
            ErrorView::NotFinite { text } => shows(error.message(shown), quoted_text(text)),
            ErrorView::NotIncreasing { bound, previous } => error.numbers() == seq![bound, previous]
                && shows_both(error.message(shown), shown[0], shown[1]),
            ErrorView::TooFine { band, raw } => shows_both(
                error.message(shown),
                quoted_text(band),
                signed_numeral(raw as int),
            ),
            ErrorView::MissingBandPrefix { option, bands } => shows_both(
                error.message(shown),
                option.text(),
                band_list(bands),
            ),
            ErrorView::UnknownBand { band, bands, .. } => shows_both(
                error.message(shown),
                quoted_text(band),
                band_list(bands),
            ),
            ErrorView::QuantizedTwice { band } => shows(error.message(shown), quoted_text(band)),
            ErrorView::NotAClass { value, band, outputs } => error.numbers() == seq![value] + outputs
                && shows_both(error.message(shown), shown[0], quoted_text(band)) && shows(
                error.message(shown),
                joined(shown.skip(1), ", "@),
            ),
            ErrorView::BetweenValues { value, band } => error.numbers() == seq![value]
                && shows_both(error.message(shown), shown[0], quoted_text(band)),
            ErrorView::EveryClassOmitted { band } => shows(error.message(shown), quoted_text(band)),
            ErrorView::InvalidRename { arg } => shows(error.message(shown), quoted_text(arg)),
            ErrorView::UnknownRename { from, bands } => shows_both(
                error.message(shown),
                quoted_text(from),
                joined(all_quoted(bands), ", "@),
            ),
            ErrorView::RenameCollision { to } => shows(error.message(shown), quoted_text(to)),
            ErrorView::ProductNotPresent { requested, available } => shows_both(
                error.message(shown),
                requested,
                product_list(available),
            ),
            ErrorView::SeveralProducts { available } => shows(
                error.message(shown),
                product_list(available),
            ),
            ErrorView::NothingFarEnough { minutes, product } => shows_both(
                error.message(shown),
                signed_numeral(minutes as int),
                product,
            ),
            ErrorView::OnlyAnalyses { product } => shows(error.message(shown), product),
            ErrorView::IncompatibleGrids { first, other } => shows_both(
                error.message(shown),
                first,
                other,
            ),
            ErrorView::EmptyZoomRange { min_zoom, max_zoom } => shows_both(
                error.message(shown),
                numeral(min_zoom as nat),
                numeral(max_zoom as nat),
            ),
            _ => true,
        },
{
    let message = error.message(shown);
    let none = Seq::<char>::empty();
    match error {
        ErrorView::NotANumber { text } => {
            lemma_shows(message, "expected a number but found "@, quoted_text(text), none);
        },
        ErrorView::NotFinite { text } => {
            lemma_shows(message, "value "@, quoted_text(text), " is not finite"@);
        },
        ErrorView::NotIncreasing { .. } => {
            lemma_shows_both(
                message,
                "--quantize boundaries must be strictly increasing, but "@,
                shown[0],
                " follows "@,
                shown[1],
                none,
            );
        },
        ErrorView::TooFine { band, raw } => {
            lemma_shows_both(
                message,
                "--quantize boundaries are finer than the resolution of band "@,
                quoted_text(band),
                ": two boundaries both map to raw value "@,
                signed_numeral(raw as int),
                none,
            );
        },
        ErrorView::MissingBandPrefix { option, bands } => {
            lemma_shows_both(
                message,
                none,
                option.text(),
                " needs a band prefix such as "@ + option.text() + " \""@ + first_name(bands)
                    + "=1,2,4\" because this product has "@,
                band_list(bands),
                none,
            );
        },
        ErrorView::UnknownBand { option, band, bands } => {
            lemma_shows_both(
                message,
                "unknown band "@,
                quoted_text(band),
                " in "@ + option.text() + "; this product has "@,
                band_list(bands),
                none,
            );
        },
        ErrorView::QuantizedTwice { band } => {
            lemma_shows(message, "band "@, quoted_text(band), " is quantized more than once"@);
        },
        ErrorView::NotAClass { band, .. } => {
            let list = joined(shown.skip(1), ", "@);
            lemma_shows_both(
                message,
                "--omit value "@,
                shown[0],
                " is not one of the classes of band "@,
                quoted_text(band),
                "; it emits "@ + list,
            );
            lemma_shows(
                message,
                "--omit value "@ + shown[0] + " is not one of the classes of band "@ + quoted_text(
                    band,
                ) + "; it emits "@,
                list,
                none,
            );
        },
        ErrorView::BetweenValues { band, .. } => {
            lemma_shows_both(
                message,
                "--omit value "@,
                shown[0],
                " does not exist in band "@,
                quoted_text(band),
                ": it falls between two representable values"@,
            );
        },
        ErrorView::EveryClassOmitted { band } => {
            lemma_shows(message, "--omit would drop every class of band "@, quoted_text(band), none);
        },
        ErrorView::InvalidRename { arg } => {
            lemma_shows(
                message,
                "--rename expects <from>=<to> but found "@,
                quoted_text(arg),
                none,
            );
        },
        ErrorView::UnknownRename { from, bands } => {
            lemma_shows_both(
                message,
                "unknown band "@,
                quoted_text(from),
                " in --rename; this product has "@,
                joined(all_quoted(bands), ", "@),
                none,
            );
        },
        ErrorView::RenameCollision { to } => {
            lemma_shows(
                message,
                "--rename target "@,
                quoted_text(to),
                " collides with another band of this product"@,
            );
        },
        ErrorView::ProductNotPresent { requested, available } => {
            lemma_shows_both(
                message,
                "product `"@,
                requested,
                "` is not present in the input; available choices:\n"@,
                product_list(available),
                none,
            );
        },
        ErrorView::SeveralProducts { available } => {
            lemma_shows(
                message,
                "input contains multiple products; select one explicitly:\n"@,
                product_list(available),
                none,
            );
        },
        ErrorView::NothingFarEnough { minutes, product } => {
            lemma_shows_both(
                message,
                "--min-lead-time "@,
                signed_numeral(minutes as int),
                " removed every product of "@,
                product,
                none,
            );
        },
        ErrorView::OnlyAnalyses { product } => {
            lemma_shows(
                message,
                "--skip-analysis removed every product; "@,
                product,
                " contains only analyses"@,
            );
        },
        ErrorView::IncompatibleGrids { first, other } => {
            lemma_shows_both(
                message,
                "selected products use incompatible grids: "@,
                first,
                " and "@,
                other,
                none,
            );
        },
        ErrorView::EmptyZoomRange { min_zoom, max_zoom } => {
            lemma_shows_both(
                message,
                "minimum zoom "@,
                numeral(min_zoom as nat),
                " exceeds maximum zoom "@,
                numeral(max_zoom as nat),
                none,
            );
        },
        _ => {},
    }
}

} // verus!
