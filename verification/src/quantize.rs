//! Optional quantization of values.
//!
//! Quantization collapses the values of a band into a small number of classes before polygons are
//! built. Cells are grouped by value and each group becomes one shape, so fewer distinct values
//! mean larger and fewer polygons.
//!
//! A specification is a comma separated list of `<boundary>[:<value>]` entries, optionally with
//! `<band>=` in front. Boundaries are inclusive lower bounds in physical units, and each class
//! emits its own boundary unless a replacement value is given. The last class is open ended, and
//! values below the first boundary fall into the first class.
//!
//! What a piece of text reads as, and where a physical value lies among the raw values of a band,
//! is floating point arithmetic: it comes with the arguments.
use crate::error::{Error, ErrorView, OptionName};
use crate::number::{equal, less, Number};
use crate::text::{
    all_white, is_core_of, is_white, joined, law_parts_make_up_the_text,
    law_pieces_make_up_the_text, law_trimming_keeps_the_rest, law_trimming_leaves_the_core,
    law_trimming_takes_white_space, parted, pieces, same, split, split_once, texts, trim, trimmed,
};
use crate::vectors::{copied, increasing};
use vstd::arithmetic::power2::pow2;
use vstd::prelude::*;

verus! {

// ---------------------------------------------------------------------------
// Arguments, with their numbers read
// ---------------------------------------------------------------------------

/// What a text reads as.
#[derive(Clone, Copy, Debug, PartialEq, Eq, Structural)]
pub enum Reading {
    /// No number.
    NotANumber,
    /// A number, but an infinite or undefined one.
    NotFinite,
    /// A finite number.
    Finite(Number),
}

impl Reading {
    /// A finite reading holds a finite number.
    pub open spec fn well_formed(self) -> bool {
        self matches Reading::Finite(number) ==> number.is_finite()
    }
}

/// The numbers of one `<boundary>[:<value>]` entry.
#[derive(Debug)]
pub struct QuantizeEntry {
    /// What stands before the colon, or the whole entry where there is none.
    pub bound: Reading,
    /// What stands behind the colon, where there is one.
    pub output: Reading,
    /// The least raw value that reaches the boundary, in each band of the product.
    pub raw_bounds: Vec<i32>,
}

/// A `--quantize` argument.
#[derive(Debug)]
pub struct QuantizeArg {
    pub text: String,
    pub entries: Vec<QuantizeEntry>,
}

impl QuantizeArg {
    /// There is an entry for every piece of the list.
    pub open spec fn well_formed(self) -> bool {
        &&& self.entries@.len() == list_of(self.text@).len()
        &&& self.entries@.len() <= i32::MAX
        &&& forall|i: int|
            0 <= i < self.entries@.len() ==> (#[trigger] self.entries@[i]).bound.well_formed()
                && self.entries@[i].output.well_formed()
    }

    /// Every boundary has a raw value in each of so many bands.
    pub open spec fn placed(self, bands: nat) -> bool {
        forall|i: int|
            0 <= i < self.entries@.len() ==> (#[trigger] self.entries@[i]).raw_bounds@.len()
                == bands
    }
}

/// The part of an argument behind the band, or all of it where no band is named.
pub open spec fn behind_band(text: Seq<char>) -> Seq<char> {
    match parted(text, '=') {
        Some((_, entries)) => entries,
        None => text,
    }
}

/// The pieces of the list in an argument.
pub open spec fn list_of(text: Seq<char>) -> Seq<Seq<char>> {
    pieces(behind_band(text), ',')
}

/// The part of an argument behind the band, or all of it where no band is named.
pub(crate) fn entries_part<'a>(text: &'a str) -> (entries: &'a str)
    ensures
        entries@ == behind_band(text@),
{
    match split_once(text, '=') {
        Some((_, entries)) => entries,
        None => text,
    }
}

/// The pieces of the list in an argument.
pub fn list_entries(text: &str) -> (entries: Vec<String>)
    ensures
        texts(entries@) == list_of(text@),
{
    split(entries_part(text), ',')
}

/// The texts of the numbers in a `--quantize` entry: the boundary, and the value where there is
/// one.
pub open spec fn entry_parts(piece: Seq<char>) -> (Seq<char>, Option<Seq<char>>) {
    match parted(trimmed(piece), ':') {
        Some((bound, output)) => (trimmed(bound), Some(trimmed(output))),
        None => (trimmed(trimmed(piece)), None),
    }
}

/// The texts of the numbers in a `--quantize` entry.
pub fn entry_texts<'a>(piece: &'a str) -> (parts: (&'a str, Option<&'a str>))
    ensures
        parts.0@ == entry_parts(piece@).0,
        parts.1 is Some == entry_parts(piece@).1 is Some,
        parts.1 matches Some(output) ==> entry_parts(piece@).1 == Some(output@),
{
    let entry = trim(piece);
    match split_once(entry, ':') {
        Some((bound, output)) => (trim(bound), Some(trim(output))),
        None => (trim(entry), None),
    }
}

/// The finite number that a text reads as, or what is wrong with it.
pub open spec fn number_read(text: Seq<char>, reading: Reading) -> Result<Number, ErrorView> {
    match reading {
        Reading::NotANumber => Err(ErrorView::NotANumber { text }),
        Reading::NotFinite => Err(ErrorView::NotFinite { text }),
        Reading::Finite(number) => Ok(number),
    }
}

/// The finite number that a text reads as.
pub(crate) fn parse_number(text: &str, reading: Reading) -> (result: Result<Number, Error>)
    ensures
        match result {
            Ok(number) => number_read(trimmed(text@), reading) == Ok::<Number, ErrorView>(number),
            Err(error) => number_read(trimmed(text@), reading) == Err::<Number, ErrorView>(error@),
        },
{
    let text = trim(text);
    match reading {
        Reading::NotANumber => Err(Error::NotANumber { text: text.to_owned() }),
        Reading::NotFinite => Err(Error::NotFinite { text: text.to_owned() }),
        Reading::Finite(number) => Ok(number),
    }
}

// ---------------------------------------------------------------------------
// Classes
// ---------------------------------------------------------------------------

/// The classes of a band.
#[verifier::ext_equal]
pub struct Classes {
    /// The least raw value of each class.
    pub raw_bounds: Seq<i32>,
    /// The least physical value of each class.
    pub bounds: Seq<Number>,
    /// The value that each class emits.
    pub outputs: Seq<Number>,
    /// Every class emits an integer.
    pub integral: bool,
}

/// The class of a raw value: the last one whose boundary it reaches, or the first.
pub open spec fn class_among(raw_bounds: Seq<i32>, raw: i32) -> int
    decreases raw_bounds.len(),
{
    if raw_bounds.len() <= 1 {
        0
    } else if raw_bounds.last() <= raw {
        raw_bounds.len() - 1
    } else {
        class_among(raw_bounds.drop_last(), raw)
    }
}

/// All numbers are whole, and 64 bits hold them.
pub open spec fn all_integers(numbers: Seq<Number>) -> bool {
    forall|i: int| 0 <= i < numbers.len() ==> is_integer(#[trigger] numbers[i])
}

/// The number is whole, and its magnitude is at most 2^63.
pub open spec fn is_integer(number: Number) -> bool {
    &&& number.is_whole()
    &&& -(pow2(63) * pow2(1074)) <= number.units() <= pow2(63) * pow2(1074)
}

/// The classes before class `n` that emit a value, in order.
pub open spec fn emitting(outputs: Seq<Number>, value: Number, n: nat) -> Seq<i32>
    decreases n,
{
    if n == 0 {
        Seq::empty()
    } else {
        let before = emitting(outputs, value, (n - 1) as nat);
        if equal(outputs[n - 1], value) {
            before.push((n - 1) as i32)
        } else {
            before
        }
    }
}

impl Classes {
    /// There is a class, the columns have equal lengths, and the boundaries increase.
    pub open spec fn well_formed(self) -> bool {
        &&& 1 <= self.raw_bounds.len() <= i32::MAX
        &&& self.bounds.len() == self.raw_bounds.len()
        &&& self.outputs.len() == self.raw_bounds.len()
        &&& increasing(self.raw_bounds)
        &&& forall|i: int, j: int|
            0 <= i < j < self.bounds.len() ==> less(
                #[trigger] self.bounds[i],
                #[trigger] self.bounds[j],
            )
        &&& forall|i: int| 0 <= i < self.outputs.len() ==> (#[trigger] self.outputs[i]).is_finite()
        &&& self.integral == all_integers(self.outputs)
    }

    /// The class of a raw value.
    pub open spec fn class_of(self, raw: i32) -> int {
        class_among(self.raw_bounds, raw)
    }

    /// The classes that emit a value, in order.
    pub open spec fn classes_emitting(self, value: Number) -> Seq<i32> {
        emitting(self.outputs, value, self.outputs.len())
    }
}

/// A `--quantize` specification resolved against a band.
#[derive(Debug)]
pub struct BandQuantize {
    raw_bounds: Vec<i32>,
    bounds: Vec<Number>,
    outputs: Vec<Number>,
    integral_outputs: bool,
}

impl View for BandQuantize {
    type V = Classes;

    closed spec fn view(&self) -> Classes {
        Classes {
            raw_bounds: self.raw_bounds@,
            bounds: self.bounds@,
            outputs: self.outputs@,
            integral: self.integral_outputs,
        }
    }
}

proof fn lemma_class_among(raw_bounds: Seq<i32>, raw: i32, above: int)
    requires
        increasing(raw_bounds),
        0 <= above <= raw_bounds.len(),
        forall|i: int| 0 <= i < above ==> raw_bounds[i] <= raw,
        forall|i: int| above <= i < raw_bounds.len() ==> raw_bounds[i] > raw,
    ensures
        class_among(raw_bounds, raw) == if above == 0 {
            0
        } else {
            above - 1
        },
    decreases raw_bounds.len(),
{
    if raw_bounds.len() > 1 {
        if above < raw_bounds.len() {
            lemma_class_among(raw_bounds.drop_last(), raw, above);
        }
    }
}

/// Every raw value belongs to exactly one class: it reaches the boundary of its class, or lies
/// below all boundaries and belongs to the first, and it does not reach the next boundary. The
/// last class is open ended.
pub proof fn law_classes_cover_every_value(classes: Classes, raw: i32, class: int)
    requires
        classes.well_formed(),
        0 <= class < classes.raw_bounds.len(),
    ensures
        0 <= classes.class_of(raw) < classes.raw_bounds.len(),
        classes.class_of(raw) == class <==> (class == 0 || classes.raw_bounds[class] <= raw) && (
        class + 1 < classes.raw_bounds.len() ==> raw < classes.raw_bounds[class + 1]),
{
    lemma_class_bounds(classes.raw_bounds, raw);
    let found = classes.class_of(raw);
    if class < found {
        assert(classes.raw_bounds[class + 1] <= classes.raw_bounds[found]);
    } else if found < class {
        assert(classes.raw_bounds[found + 1] <= classes.raw_bounds[class]);
    }
}

proof fn lemma_class_bounds(raw_bounds: Seq<i32>, raw: i32)
    requires
        increasing(raw_bounds),
        raw_bounds.len() >= 1,
    ensures
        0 <= class_among(raw_bounds, raw) < raw_bounds.len(),
        class_among(raw_bounds, raw) == 0 || raw_bounds[class_among(raw_bounds, raw)] <= raw,
        class_among(raw_bounds, raw) + 1 < raw_bounds.len() ==> raw < raw_bounds[class_among(
            raw_bounds,
            raw,
        ) + 1],
    decreases raw_bounds.len(),
{
    if raw_bounds.len() > 1 && raw_bounds.last() > raw {
        lemma_class_bounds(raw_bounds.drop_last(), raw);
    }
}

/// A boundary belongs to the class that it opens: boundaries are inclusive lower bounds.
pub proof fn law_boundaries_are_inclusive(classes: Classes, class: int)
    requires
        classes.well_formed(),
        0 <= class < classes.raw_bounds.len(),
    ensures
        classes.class_of(classes.raw_bounds[class]) == class,
{
    law_classes_cover_every_value(classes, classes.raw_bounds[class], class);
}

/// A greater value never belongs to a lesser class.
pub proof fn law_classes_keep_the_order(classes: Classes, a: i32, b: i32)
    requires
        classes.well_formed(),
        a <= b,
    ensures
        classes.class_of(a) <= classes.class_of(b),
{
    let (ca, cb) = (classes.class_of(a), classes.class_of(b));
    lemma_class_bounds(classes.raw_bounds, a);
    lemma_class_bounds(classes.raw_bounds, b);
    if cb < ca {
        assert(classes.raw_bounds[cb + 1] <= classes.raw_bounds[ca]);
    }
}

/// A class is among those that emit a value exactly where its output is that value.
pub proof fn law_classes_emitting(classes: Classes, value: Number, class: i32)
    requires
        classes.well_formed(),
    ensures
        classes.classes_emitting(value).contains(class) <==> 0 <= class < classes.outputs.len()
            && equal(classes.outputs[class as int], value),
{
    lemma_emitting(classes.outputs, value, classes.outputs.len(), class);
}

proof fn lemma_emitting(outputs: Seq<Number>, value: Number, n: nat, class: i32)
    requires
        n <= outputs.len() <= i32::MAX,
    ensures
        emitting(outputs, value, n).contains(class) <==> 0 <= class < n
            && equal(outputs[class as int], value),
    decreases n,
{
    if n > 0 {
        lemma_emitting(outputs, value, (n - 1) as nat, class);
        let before = emitting(outputs, value, (n - 1) as nat);
        if equal(outputs[n - 1], value) {
            let after = before.push((n - 1) as i32);
            assert(after[before.len() as int] == (n - 1) as i32);
            if before.contains(class) {
                let i = choose|i: int| 0 <= i < before.len() && before[i] == class;
                assert(after[i] == class);
            }
            if after.contains(class) {
                let i = choose|i: int| 0 <= i < after.len() && after[i] == class;
                if i < before.len() {
                    assert(before[i] == class);
                }
            }
        }
    }
}


impl BandQuantize {
    /// The class of a raw value.
    pub fn class_of(&self, raw: i32) -> (class: i32)
        requires
            self@.well_formed(),
        ensures
            class == self@.class_of(raw),
            0 <= class < self@.outputs.len(),
    {
        let mut low: usize = 0;
        let mut high: usize = self.raw_bounds.len();
        while low < high
            invariant
                low <= high <= self.raw_bounds@.len(),
                increasing(self.raw_bounds@),
                forall|i: int| 0 <= i < low ==> self.raw_bounds@[i] <= raw,
                forall|i: int| high <= i < self.raw_bounds@.len() ==> self.raw_bounds@[i] > raw,
            decreases high - low,
        {
            let middle: usize = low + (high - low) / 2;
            if self.raw_bounds[middle] <= raw {
                low = middle + 1;
            } else {
                high = middle;
            }
        }
        proof {
            lemma_class_among(self.raw_bounds@, raw, low as int);
        }
        if low == 0 {
            0
        } else {
            (low - 1) as i32
        }
    }

    /// The physical value that a class emits.
    pub fn output(&self, class: i32) -> (value: Number)
        requires
            0 <= class < self@.outputs.len(),
        ensures
            value == self@.outputs[class as int],
    {
        self.outputs[class as usize]
    }

    /// Whether every class emits an integer, which gives the attribute one type everywhere.
    pub fn integral_outputs(&self) -> (answer: bool)
        ensures
            answer == self@.integral,
    {
        self.integral_outputs
    }

    /// The classes that emit a value.
    pub(crate) fn classes_emitting(&self, value: Number) -> (classes: Vec<i32>)
        requires
            self@.well_formed(),
        ensures
            classes@ == self@.classes_emitting(value),
    {
        let mut classes: Vec<i32> = Vec::new();
        for position in 0..self.outputs.len()
            invariant
                self.outputs@.len() <= i32::MAX,
                classes@ == emitting(self.outputs@, value, position as nat),
        {
            if self.outputs[position].equals(value) {
                classes.push(position as i32);
            }
        }
        classes
    }

    /// The number of classes.
    pub fn class_count(&self) -> (count: usize)
        ensures
            count == self@.outputs.len(),
    {
        self.outputs.len()
    }

    /// The least physical value of each class.
    pub fn bounds(&self) -> (bounds: &Vec<Number>)
        ensures
            bounds@ == self@.bounds,
    {
        &self.bounds
    }

    /// The value that each class emits.
    pub fn outputs(&self) -> (outputs: &Vec<Number>)
        ensures
            outputs@ == self@.outputs,
    {
        &self.outputs
    }

    /// A copy.
    pub(crate) fn copy(&self) -> (copy: BandQuantize)
        ensures
            copy@ == self@,
    {
        BandQuantize {
            raw_bounds: copied(&self.raw_bounds),
            bounds: copied(&self.bounds),
            outputs: copied(&self.outputs),
            integral_outputs: self.integral_outputs,
        }
    }
}

/// The classes of each band, where it has any.
pub open spec fn all_classes(quantize: Seq<Option<BandQuantize>>) -> Seq<Option<Classes>> {
    quantize.map_values(
        |entry: Option<BandQuantize>| match entry {
            Some(quantize) => Some(quantize@),
            None => None,
        },
    )
}

/// All classes are well formed.
pub open spec fn all_well_formed(quantize: Seq<Option<Classes>>) -> bool {
    forall|b: int|
        0 <= b < quantize.len() ==> ((#[trigger] quantize[b]) matches Some(classes)
            ==> classes.well_formed())
}

/// A copy.
pub fn copy_quantize(quantize: &Vec<Option<BandQuantize>>) -> (copy: Vec<Option<BandQuantize>>)
    ensures
        all_classes(copy@) == all_classes(quantize@),
{
    let mut copy: Vec<Option<BandQuantize>> = Vec::new();
    for i in 0..quantize.len()
        invariant
            all_classes(copy@) == all_classes(quantize@).take(i as int),
    {
        let entry = match &quantize[i] {
            Some(entry) => Some(entry.copy()),
            None => None,
        };
        proof {
            let all = all_classes(quantize@);
            assert(all_classes(copy@.push(entry)) =~= all_classes(copy@).push(all[i as int]));
            assert(all.take(i as int + 1) =~= all.take(i as int).push(all[i as int]));
        }
        copy.push(entry);
    }
    proof {
        let all = all_classes(quantize@);
        assert(all.take(all.len() as int) =~= all);
    }
    copy
}

/// As many bands without classes.
pub fn no_quantize(count: usize) -> (quantize: Vec<Option<BandQuantize>>)
    ensures
        quantize@.len() == count,
        all_classes(quantize@) == Seq::new(count as nat, |b: int| None::<Classes>),
{
    let mut quantize: Vec<Option<BandQuantize>> = Vec::new();
    for i in 0..count
        invariant
            quantize@.len() == i,
            forall|b: int| 0 <= b < i ==> (#[trigger] quantize@[b]) is None,
    {
        quantize.push(None);
    }
    proof {
        assert(all_classes(quantize@) =~= Seq::new(count as nat, |b: int| None::<Classes>));
    }
    quantize
}

// ---------------------------------------------------------------------------
// Which band an argument is about
// ---------------------------------------------------------------------------

/// The first place of a name among names.
pub open spec fn first_place(names: Seq<Seq<char>>, name: Seq<char>) -> Option<int>
    decreases names.len(),
{
    if names.len() == 0 {
        None
    } else if names[0] == name {
        Some(0)
    } else {
        match first_place(names.drop_first(), name) {
            Some(place) => Some(place + 1),
            None => None,
        }
    }
}

/// The name of the band that an argument is about: the one in front of the equals sign, or the
/// only band.
pub open spec fn named_band(
    text: Seq<char>,
    names: Seq<Seq<char>>,
    option: OptionName,
) -> Result<Seq<char>, ErrorView> {
    match parted(text, '=') {
        Some((name, _)) => Ok(trimmed(name)),
        None => if names.len() == 1 {
            Ok(names[0])
        } else {
            Err(ErrorView::MissingBandPrefix { option, bands: names })
        },
    }
}

/// The place of the band that an argument is about.
pub open spec fn band_of(
    text: Seq<char>,
    names: Seq<Seq<char>>,
    option: OptionName,
) -> Result<int, ErrorView> {
    match named_band(text, names, option) {
        Err(error) => Err(error),
        Ok(band) => match first_place(names, band) {
            Some(place) => Ok(place),
            None => Err(ErrorView::UnknownBand { option, band, bands: names }),
        },
    }
}

pub proof fn lemma_first_place_at(names: Seq<Seq<char>>, name: Seq<char>, place: int)
    requires
        0 <= place < names.len(),
        names[place] == name,
        forall|j: int| 0 <= j < place ==> names[j] != name,
    ensures
        first_place(names, name) == Some(place),
    decreases names.len(),
{
    if place > 0 {
        let rest = names.drop_first();
        assert forall|j: int| 0 <= j < place - 1 implies rest[j] != name by {
            assert(rest[j] == names[j + 1]);
        }
        assert(names[0] != name);
        lemma_first_place_at(rest, name, place - 1);
    }
}

pub proof fn lemma_first_place_nowhere(names: Seq<Seq<char>>, name: Seq<char>)
    requires
        forall|j: int| 0 <= j < names.len() ==> names[j] != name,
    ensures
        first_place(names, name) is None,
    decreases names.len(),
{
    if names.len() > 0 {
        let rest = names.drop_first();
        assert forall|j: int| 0 <= j < rest.len() implies rest[j] != name by {
            assert(rest[j] == names[j + 1]);
        }
        assert(names[0] != name);
        lemma_first_place_nowhere(rest, name);
    }
}

pub proof fn lemma_first_place_within(names: Seq<Seq<char>>, name: Seq<char>)
    ensures
        first_place(names, name) matches Some(place) ==> 0 <= place < names.len()
            && names[place] == name,
    decreases names.len(),
{
    if names.len() > 0 && names[0] != name {
        lemma_first_place_within(names.drop_first(), name);
    }
}

pub proof fn lemma_first_place_absent(names: Seq<Seq<char>>, name: Seq<char>)
    requires
        first_place(names, name) is None,
    ensures
        !names.contains(name),
    decreases names.len(),
{
    if names.len() > 0 {
        let rest = names.drop_first();
        lemma_first_place_absent(rest, name);
        if names.contains(name) {
            let i = choose|i: int| 0 <= i < names.len() && names[i] == name;
            assert(i > 0);
            assert(rest[i - 1] == name);
        }
    }
}

/// The first place of a name among names.
pub fn find_name(names: &Vec<String>, name: &str) -> (place: Option<usize>)
    ensures
        match place {
            Some(place) => first_place(texts(names@), name@) == Some(place as int) && place
                < names@.len(),
            None => first_place(texts(names@), name@) is None,
        },
{
    for i in 0..names.len()
        invariant
            forall|j: int| 0 <= j < i ==> texts(names@)[j] != name@,
    {
        if same(names[i].as_str(), name) {
            proof {
                lemma_first_place_at(texts(names@), name@, i as int);
            }
            return Some(i);
        }
    }
    proof {
        lemma_first_place_nowhere(texts(names@), name@);
    }
    None
}

/// A copy of some texts.
pub fn copy_texts(items: &Vec<String>) -> (copy: Vec<String>)
    ensures
        texts(copy@) == texts(items@),
{
    let mut copy: Vec<String> = Vec::new();
    for i in 0..items.len()
        invariant
            texts(copy@) == texts(items@).take(i as int),
    {
        let item = items[i].clone();
        proof {
            let all = texts(items@);
            assert(texts(copy@.push(item)) =~= texts(copy@).push(item@));
            assert(all.take(i as int + 1) =~= all.take(i as int).push(all[i as int]));
        }
        copy.push(item);
    }
    proof {
        assert(texts(items@).take(items@.len() as int) =~= texts(items@));
    }
    copy
}

/// Parts an argument for an option into the band that it is about and its list.
pub(crate) fn split_band_prefix_for<'a>(
    text: &'a str,
    names: &'a Vec<String>,
    option: OptionName,
) -> (result: Result<(&'a str, &'a str), Error>)
    ensures
        match result {
            Ok((band, entries)) => named_band(text@, texts(names@), option) == Ok::<
                Seq<char>,
                ErrorView,
            >(band@) && entries@ == behind_band(text@),
            Err(error) => named_band(text@, texts(names@), option) == Err::<Seq<char>, ErrorView>(
                error@,
            ),
        },
{
    if let Some((band, entries)) = split_once(text, '=') {
        return Ok((trim(band), entries));
    }
    if names.len() == 1 {
        proof {
            assert(texts(names@)[0] == names@[0]@);
        }
        Ok((names[0].as_str(), text))
    } else {
        Err(Error::MissingBandPrefix { option, bands: copy_texts(names) })
    }
}

/// Parts a `--quantize` argument into the band that it is about and its list.
fn split_band_prefix<'a>(text: &'a str, names: &'a Vec<String>) -> (result: Result<
    (&'a str, &'a str),
    Error,
>)
    ensures
        match result {
            Ok((band, entries)) => named_band(text@, texts(names@), OptionName::Quantize) == Ok::<
                Seq<char>,
                ErrorView,
            >(band@) && entries@ == behind_band(text@),
            Err(error) => named_band(text@, texts(names@), OptionName::Quantize) == Err::<
                Seq<char>,
                ErrorView,
            >(error@),
        },
{
    split_band_prefix_for(text, names, OptionName::Quantize)
}

// ---------------------------------------------------------------------------
// Quantization
// ---------------------------------------------------------------------------

/// The boundary and the output of an entry.
pub open spec fn entry_read(piece: Seq<char>, entry: QuantizeEntry) -> Result<
    (Number, Number),
    ErrorView,
> {
    let (bound_text, output_text) = entry_parts(piece);
    if trimmed(piece).len() == 0 {
        Err(ErrorView::EmptyEntry)
    } else {
        match number_read(bound_text, entry.bound) {
            Err(error) => Err(error),
            Ok(bound) => match output_text {
                // Without a replacement value the class emits its own boundary.
                None => Ok((bound, bound)),
                Some(output_text) => match number_read(output_text, entry.output) {
                    Err(error) => Err(error),
                    Ok(output) => Ok((bound, output)),
                },
            },
        }
    }
}

/// The boundaries and outputs of the first `n` entries.
pub open spec fn entries_read(
    list: Seq<Seq<char>>,
    entries: Seq<QuantizeEntry>,
    n: nat,
) -> Result<(Seq<Number>, Seq<Number>), ErrorView>
    decreases n,
{
    if n == 0 {
        Ok((Seq::empty(), Seq::empty()))
    } else {
        match entries_read(list, entries, (n - 1) as nat) {
            Err(error) => Err(error),
            Ok((bounds, outputs)) => match entry_read(list[n - 1], entries[n - 1]) {
                Err(error) => Err(error),
                Ok((bound, output)) => if bounds.len() > 0 && !less(bounds.last(), bound) {
                    Err(ErrorView::NotIncreasing { bound, previous: bounds.last() })
                } else {
                    Ok((bounds.push(bound), outputs.push(output)))
                },
            },
        }
    }
}

/// The raw values of the boundaries in a band.
pub open spec fn raw_in_band(entries: Seq<QuantizeEntry>, band: int) -> Seq<i32> {
    entries.map_values(|entry: QuantizeEntry| entry.raw_bounds@[band])
}

/// The first of `n` values that the next does not exceed.
pub open spec fn first_clash(values: Seq<i32>, n: nat) -> Option<i32>
    decreases n,
{
    if n <= 1 {
        None
    } else {
        match first_clash(values, (n - 1) as nat) {
            Some(value) => Some(value),
            None => if values[n - 2] < values[n - 1] {
                None
            } else {
                Some(values[n - 2])
            },
        }
    }
}

/// The classes that an argument gives a band.
pub open spec fn classes_of(
    list: Seq<Seq<char>>,
    entries: Seq<QuantizeEntry>,
    band: int,
    name: Seq<char>,
) -> Result<Classes, ErrorView> {
    match entries_read(list, entries, entries.len()) {
        Err(error) => Err(error),
        Ok((bounds, outputs)) => match first_clash(raw_in_band(entries, band), entries.len()) {
            Some(raw) => Err(ErrorView::TooFine { band: name, raw }),
            None => Ok(
                Classes {
                    raw_bounds: raw_in_band(entries, band),
                    bounds,
                    outputs,
                    integral: all_integers(outputs),
                },
            ),
        },
    }
}

/// What the first `n` arguments make of the bands.
pub open spec fn resolved(
    args: Seq<QuantizeArg>,
    names: Seq<Seq<char>>,
    n: nat,
) -> Result<Seq<Option<Classes>>, ErrorView>
    decreases n,
{
    if n == 0 {
        Ok(Seq::new(names.len(), |b: int| None::<Classes>))
    } else {
        let arg = args[n - 1];
        match resolved(args, names, (n - 1) as nat) {
            Err(error) => Err(error),
            Ok(before) => match band_of(arg.text@, names, OptionName::Quantize) {
                Err(error) => Err(error),
                Ok(band) => if before[band] is Some {
                    Err(ErrorView::QuantizedTwice { band: names[band] })
                } else {
                    match classes_of(list_of(arg.text@), arg.entries@, band, names[band]) {
                        Err(error) => Err(error),
                        Ok(classes) => Ok(before.update(band, Some(classes))),
                    }
                },
            },
        }
    }
}

proof fn lemma_no_clash(values: Seq<i32>, n: nat)
    requires
        n <= values.len(),
        first_clash(values, n) is None,
    ensures
        increasing(values.take(n as int)),
    decreases n,
{
    if n > 1 {
        lemma_no_clash(values, (n - 1) as nat);
        let before = values.take(n - 1);
        let now = values.take(n as int);
        assert forall|i: int, j: int| 0 <= i < j < now.len() implies now[i] < now[j] by {
            assert(now[i] == before[i]);
            if j < n - 1 {
                assert(now[j] == before[j]);
            } else if i < n - 2 {
                assert(before[i] < before[n - 2]);
            }
        }
    }
}

proof fn lemma_entries_fault_stays(
    list: Seq<Seq<char>>,
    entries: Seq<QuantizeEntry>,
    n: nat,
    m: nat,
)
    requires
        n <= m,
        entries_read(list, entries, n) is Err,
    ensures
        entries_read(list, entries, m) == entries_read(list, entries, n),
    decreases m,
{
    if n < m {
        lemma_entries_fault_stays(list, entries, n, (m - 1) as nat);
    }
}

/// Where all entries read well, the boundaries increase, and all numbers are finite.
proof fn lemma_entries_read(list: Seq<Seq<char>>, entries: Seq<QuantizeEntry>, n: nat)
    requires
        n <= entries.len(),
        forall|i: int|
            0 <= i < entries.len() ==> (#[trigger] entries[i]).bound.well_formed()
                && entries[i].output.well_formed(),
    ensures
        entries_read(list, entries, n) matches Ok((bounds, outputs)) ==> {
            &&& bounds.len() == n
            &&& outputs.len() == n
            &&& forall|i: int, j: int|
                0 <= i < j < n ==> less(#[trigger] bounds[i], #[trigger] bounds[j])
            &&& forall|i: int| 0 <= i < n ==> (#[trigger] outputs[i]).is_finite()
        },
    decreases n,
{
    if n > 0 {
        lemma_entries_read(list, entries, (n - 1) as nat);
        if let Ok((bounds, outputs)) = entries_read(list, entries, (n - 1) as nat) {
            assert(entries[n - 1].bound.well_formed() && entries[n - 1].output.well_formed());
            if n > 1 {
                assert forall|i: int| 0 <= i < n - 1 implies (#[trigger] bounds[i]).key() <= bounds[n - 2].key() by {
                    if i < n - 2 {
                        assert(less(bounds[i], bounds[n - 2]));
                    }
                }
            }
        }
    }
}

/// Whatever the arguments make of the bands, each band that has classes has well formed ones.
pub proof fn law_resolved_classes_are_well_formed(
    args: Seq<QuantizeArg>,
    names: Seq<Seq<char>>,
    n: nat,
)
    requires
        n <= args.len(),
        forall|i: int|
            0 <= i < args.len() ==> (#[trigger] args[i]).well_formed() && args[i].placed(
                names.len(),
            ),
    ensures
        resolved(args, names, n) matches Ok(quantize) ==> quantize.len() == names.len()
            && all_well_formed(quantize),
    decreases n,
{
    if n > 0 {
        law_resolved_classes_are_well_formed(args, names, (n - 1) as nat);
        let arg = args[n - 1];
        if let Ok(before) = resolved(args, names, (n - 1) as nat) {
            if let Ok(band) = band_of(arg.text@, names, OptionName::Quantize) {
                lemma_first_place_within(
                    names,
                    named_band(arg.text@, names, OptionName::Quantize)->Ok_0,
                );
                lemma_entries_read(list_of(arg.text@), arg.entries@, arg.entries@.len());
                let raws = raw_in_band(arg.entries@, band);
                if first_clash(raws, arg.entries@.len()) is None {
                    lemma_no_clash(raws, arg.entries@.len());
                    assert(raws.take(raws.len() as int) =~= raws);
                }
                crate::text::lemma_pieces_nonempty(behind_band(arg.text@), ',');
            }
        }
    }
}

/// Reads the boundaries and outputs of a list, without the scales of a band.
fn parse_entries_unscaled(list: &str, entries: &Vec<QuantizeEntry>) -> (result: Result<
    (Vec<Number>, Vec<Number>),
    Error,
>)
    requires
        entries@.len() == pieces(list@, ',').len(),
    ensures
        match result {
            Ok((bounds, outputs)) => entries_read(pieces(list@, ','), entries@, entries@.len())
                == Ok::<(Seq<Number>, Seq<Number>), ErrorView>((bounds@, outputs@)),
            Err(error) => entries_read(pieces(list@, ','), entries@, entries@.len()) == Err::<
                (Seq<Number>, Seq<Number>),
                ErrorView,
            >(error@),
        },
{
    let ghost list_pieces = pieces(list@, ',');
    let parts = split(list, ',');
    let mut bounds: Vec<Number> = Vec::new();
    let mut outputs: Vec<Number> = Vec::new();
    for i in 0..parts.len()
        invariant
            parts@.len() == entries@.len(),
            list_pieces.len() == entries@.len(),
            list_pieces == pieces(list@, ','),
            forall|k: int| 0 <= k < parts@.len() ==> (#[trigger] parts@[k])@ == list_pieces[k],
            entries_read(list_pieces, entries@, i as nat) == Ok::<
                (Seq<Number>, Seq<Number>),
                ErrorView,
            >((bounds@, outputs@)),
    {
        proof {
            if entries_read(list_pieces, entries@, (i + 1) as nat) is Err {
                lemma_entries_fault_stays(list_pieces, entries@, (i + 1) as nat, entries@.len());
            }
            assert(parts@[i as int]@ == list_pieces[i as int]);
        }
        let entry = trim(parts[i].as_str());
        if entry.is_empty() {
            return Err(Error::EmptyEntry);
        }
        let (bound, output) = match split_once(entry, ':') {
            Some((bound, output)) => {
                let bound = match parse_number(bound, entries[i].bound) {
                    Ok(bound) => bound,
                    Err(error) => return Err(error),
                };
                let output = match parse_number(output, entries[i].output) {
                    Ok(output) => output,
                    Err(error) => return Err(error),
                };
                (bound, output)
            },
            None => {
                let bound = match parse_number(entry, entries[i].bound) {
                    Ok(bound) => bound,
                    Err(error) => return Err(error),
                };
                (bound, bound)
            },
        };
        if bounds.len() > 0 {
            let previous = bounds[bounds.len() - 1];
            if !previous.less_than(bound) {
                return Err(Error::NotIncreasing { bound, previous });
            }
        }
        bounds.push(bound);
        outputs.push(output);
    }
    Ok((bounds, outputs))
}

/// Whether all numbers are whole, and 64 bits hold them.
fn only_integers(numbers: &Vec<Number>) -> (answer: bool)
    requires
        forall|i: int| 0 <= i < numbers@.len() ==> (#[trigger] numbers@[i]).is_finite(),
    ensures
        answer == all_integers(numbers@),
{
    for i in 0..numbers.len()
        invariant
            forall|k: int| 0 <= k < numbers@.len() ==> (#[trigger] numbers@[k]).is_finite(),
            forall|k: int| 0 <= k < i ==> is_integer(#[trigger] numbers@[k]),
    {
        if !(numbers[i].integral() && numbers[i].within_64_bits()) {
            proof {
                assert(!is_integer(numbers@[i as int]));
            }
            return false;
        }
    }
    true
}

/// Reads a list as the classes of a band.
fn parse_entries(list: &str, entries: &Vec<QuantizeEntry>, band: usize, name: &str) -> (result:
    Result<BandQuantize, Error>)
    requires
        entries@.len() == pieces(list@, ',').len(),
        forall|i: int|
            0 <= i < entries@.len() ==> band < (#[trigger] entries@[i]).raw_bounds@.len(),
        forall|i: int|
            0 <= i < entries@.len() ==> (#[trigger] entries@[i]).bound.well_formed()
                && entries@[i].output.well_formed(),
    ensures
        match result {
            Ok(quantize) => classes_of(pieces(list@, ','), entries@, band as int, name@) == Ok::<
                Classes,
                ErrorView,
            >(quantize@),
            Err(error) => classes_of(pieces(list@, ','), entries@, band as int, name@) == Err::<
                Classes,
                ErrorView,
            >(error@),
        },
{
    let (bounds, outputs) = match parse_entries_unscaled(list, entries) {
        Ok(read) => read,
        Err(error) => return Err(error),
    };
    let ghost raws = raw_in_band(entries@, band as int);
    let mut raw_bounds: Vec<i32> = Vec::new();
    for i in 0..entries.len()
        invariant
            raws == raw_in_band(entries@, band as int),
            raw_bounds@ == raws.take(i as int),
            forall|k: int|
                0 <= k < entries@.len() ==> band < (#[trigger] entries@[k]).raw_bounds@.len(),
    {
        let raw: i32 = entries[i].raw_bounds[band];
        raw_bounds.push(raw);
        proof {
            assert(raws.take(i as int + 1) =~= raws.take(i as int).push(raw));
        }
    }
    proof {
        assert(raws.take(raws.len() as int) =~= raws);
    }
    // Two boundaries on one raw value would leave a class that no value can reach.
    for i in 1..raw_bounds.len()
        invariant
            raw_bounds@ == raws,
            raws == raw_in_band(entries@, band as int),
            first_clash(raws, i as nat) is None,
            entries_read(pieces(list@, ','), entries@, entries@.len()) is Ok,
    {
        if !(raw_bounds[i - 1] < raw_bounds[i]) {
            proof {
                lemma_clash_stays(raws, (i + 1) as nat, raws.len());
            }
            return Err(Error::TooFine { band: name.to_owned(), raw: raw_bounds[i - 1] });
        }
    }
    proof {
        lemma_entries_read(pieces(list@, ','), entries@, entries@.len());
    }
    let integral_outputs = only_integers(&outputs);
    Ok(BandQuantize { raw_bounds, bounds, outputs, integral_outputs })
}

proof fn lemma_clash_stays(values: Seq<i32>, n: nat, m: nat)
    requires
        n <= m,
        first_clash(values, n) is Some,
    ensures
        first_clash(values, m) == first_clash(values, n),
    decreases m,
{
    if n < m {
        lemma_clash_stays(values, n, (m - 1) as nat);
    }
}

proof fn lemma_resolved_fault_stays(
    args: Seq<QuantizeArg>,
    names: Seq<Seq<char>>,
    n: nat,
    m: nat,
)
    requires
        n <= m,
        resolved(args, names, n) is Err,
    ensures
        resolved(args, names, m) == resolved(args, names, n),
    decreases m,
{
    if n < m {
        lemma_resolved_fault_stays(args, names, n, (m - 1) as nat);
    }
}

/// Resolves the `--quantize` arguments against the bands of a product.
///
/// The result has one entry for each band, in the order of the bands.
pub fn resolve(args: &Vec<QuantizeArg>, names: &Vec<String>) -> (result: Result<
    Vec<Option<BandQuantize>>,
    Error,
>)
    requires
        forall|i: int|
            0 <= i < args@.len() ==> (#[trigger] args@[i]).well_formed() && args@[i].placed(
                names@.len(),
            ),
    ensures
        match result {
            Ok(quantize) => resolved(args@, texts(names@), args@.len()) == Ok::<
                Seq<Option<Classes>>,
                ErrorView,
            >(all_classes(quantize@)) && quantize@.len() == names@.len() && all_well_formed(
                all_classes(quantize@),
            ),
            Err(error) => resolved(args@, texts(names@), args@.len()) == Err::<
                Seq<Option<Classes>>,
                ErrorView,
            >(error@),
        },
{
    let ghost all_names = texts(names@);
    let mut quantize = no_quantize(names.len());
    for i in 0..args.len()
        invariant
            all_names == texts(names@),
            quantize@.len() == names@.len(),
            resolved(args@, all_names, i as nat) == Ok::<Seq<Option<Classes>>, ErrorView>(
                all_classes(quantize@),
            ),
            forall|k: int|
                0 <= k < args@.len() ==> (#[trigger] args@[k]).well_formed() && args@[k].placed(
                    names@.len(),
                ),
    {
        proof {
            if resolved(args@, all_names, (i + 1) as nat) is Err {
                lemma_resolved_fault_stays(args@, all_names, (i + 1) as nat, args@.len());
            }
            assert(args@[i as int].well_formed() && args@[i as int].placed(names@.len()));
        }
        let arg = &args[i];
        let (band_name, entries) = match split_band_prefix(arg.text.as_str(), names) {
            Ok(parts) => parts,
            Err(error) => return Err(error),
        };
        let band: usize = match find_name(names, band_name) {
            Some(band) => band,
            None => return Err(
                Error::UnknownBand {
                    option: OptionName::Quantize,
                    band: band_name.to_owned(),
                    bands: copy_texts(names),
                },
            ),
        };
        proof {
            lemma_first_place_within(all_names, band_name@);
            assert(all_classes(quantize@)[band as int] is Some <==> quantize@[band as int] is Some);
        }
        if quantize[band].is_some() {
            return Err(Error::QuantizedTwice { band: band_name.to_owned() });
        }
        let classes = match parse_entries(entries, &arg.entries, band, band_name) {
            Ok(classes) => classes,
            Err(error) => return Err(error),
        };
        let ghost before = quantize@;
        quantize.set(band, Some(classes));
        proof {
            assert(all_classes(quantize@) =~= all_classes(before).update(
                band as int,
                Some(classes@),
            ));
        }
    }
    proof {
        law_resolved_classes_are_well_formed(args@, all_names, args@.len());
    }
    Ok(quantize)
}

/// What is wrong with the first faulty one of `n` `--quantize` arguments, bands aside.
pub open spec fn syntax_fault(args: Seq<QuantizeArg>, n: nat) -> Option<ErrorView>
    decreases n,
{
    if n == 0 {
        None
    } else {
        match syntax_fault(args, (n - 1) as nat) {
            Some(error) => Some(error),
            None => {
                let arg = args[n - 1];
                match entries_read(list_of(arg.text@), arg.entries@, arg.entries@.len()) {
                    Err(error) => Some(error),
                    Ok(_) => None,
                }
            },
        }
    }
}

proof fn lemma_syntax_fault_stays(args: Seq<QuantizeArg>, n: nat, m: nat)
    requires
        n <= m,
        syntax_fault(args, n) is Some,
    ensures
        syntax_fault(args, m) == syntax_fault(args, n),
    decreases m,
{
    if n < m {
        lemma_syntax_fault_stays(args, n, (m - 1) as nat);
    }
}

/// Checks the syntax of the `--quantize` arguments, which needs no product.
pub fn validate_syntax(args: &Vec<QuantizeArg>) -> (result: Result<(), Error>)
    requires
        forall|i: int| 0 <= i < args@.len() ==> (#[trigger] args@[i]).well_formed(),
    ensures
        match result {
            Ok(()) => syntax_fault(args@, args@.len()) is None,
            Err(error) => syntax_fault(args@, args@.len()) == Some(error@),
        },
{
    for i in 0..args.len()
        invariant
            syntax_fault(args@, i as nat) is None,
            forall|k: int| 0 <= k < args@.len() ==> (#[trigger] args@[k]).well_formed(),
    {
        proof {
            assert(args@[i as int].well_formed());
            if syntax_fault(args@, (i + 1) as nat) is Some {
                lemma_syntax_fault_stays(args@, (i + 1) as nat, args@.len());
            }
        }
        match parse_entries_unscaled(entries_part(args[i].text.as_str()), &args[i].entries) {
            Ok(_) => {},
            Err(error) => return Err(error),
        }
    }
    Ok(())
}

/// Arguments that resolve against some bands have no fault in their syntax.
pub proof fn law_what_resolves_is_well_written(
    args: Seq<QuantizeArg>,
    names: Seq<Seq<char>>,
    n: nat,
)
    ensures
        resolved(args, names, n) is Ok ==> syntax_fault(args, n) is None,
    decreases n,
{
    if n > 0 {
        law_what_resolves_is_well_written(args, names, (n - 1) as nat);
    }
}

/// The argument names the band, by what stands before its first equals sign; without one it is
/// about the only band.
pub open spec fn is_about(text: Seq<char>, names: Seq<Seq<char>>, band: int) -> bool {
    &&& 0 <= band < names.len()
    &&& if text.contains('=') {
        exists|prefix: Seq<char>, list: Seq<char>|
            #![trigger prefix.push('=') + list]
            {
                &&& text == prefix.push('=') + list
                &&& !prefix.contains('=')
                &&& names[band] == trimmed(prefix)
            }
    } else {
        names.len() == 1
    }
}

/// The classes are those that the entries of a list write down, one for each entry: its boundary,
/// the raw value of the boundary in the band, and what stands behind its colon; an entry without a
/// colon emits its boundary.
pub open spec fn are_written(
    classes: Classes,
    list: Seq<Seq<char>>,
    entries: Seq<QuantizeEntry>,
    band: int,
) -> bool {
    &&& classes.bounds.len() == entries.len()
    &&& classes.outputs.len() == entries.len()
    &&& classes.raw_bounds.len() == entries.len()
    &&& forall|c: int|
        0 <= c < entries.len() ==> {
            &&& (#[trigger] entries[c]).bound == Reading::Finite(classes.bounds[c])
            &&& classes.raw_bounds[c] == entries[c].raw_bounds@[band]
            &&& if list[c].contains(':') {
                entries[c].output == Reading::Finite(classes.outputs[c])
            } else {
                classes.outputs[c] == classes.bounds[c]
            }
        }
}

proof fn lemma_entries_are_written(list: Seq<Seq<char>>, entries: Seq<QuantizeEntry>, n: nat)
    requires
        n <= entries.len(),
    ensures
        entries_read(list, entries, n) matches Ok((bounds, outputs)) ==> bounds.len() == n
            && outputs.len() == n && forall|c: int|
            0 <= c < n ==> {
                &&& (#[trigger] entries[c]).bound == Reading::Finite(bounds[c])
                &&& if list[c].contains(':') {
                    entries[c].output == Reading::Finite(outputs[c])
                } else {
                    outputs[c] == bounds[c]
                }
            },
    decreases n,
{
    if n > 0 {
        lemma_entries_are_written(list, entries, (n - 1) as nat);
        law_trimming_keeps_the_rest(list[n - 1], ':');
        law_parts_make_up_the_text(trimmed(list[n - 1]), ':');
        if let Some((before, after)) = parted(trimmed(list[n - 1]), ':') {
            let s = trimmed(list[n - 1]);
            assert(s == before.push(':') + after);
            assert(s[before.len() as int] == ':');
        }
    }
}

/// The band that is found for an argument is the one that it is about.
pub proof fn lemma_band_of(text: Seq<char>, names: Seq<Seq<char>>, option: OptionName)
    ensures
        band_of(text, names, option) matches Ok(band) ==> is_about(text, names, band),
{
    law_parts_make_up_the_text(text, '=');
    if let Ok(name) = named_band(text, names, option) {
        lemma_first_place_within(names, name);
        if let Some((prefix, list)) = parted(text, '=') {
            assert(text == prefix.push('=') + list);
            assert(text[prefix.len() as int] == '=');
        }
    }
}

/// The list of an argument is what stands behind its first equals sign, or all of it where it has
/// none: its pieces, with commas between them, are that text.
pub proof fn law_lists_stand_behind_the_band(text: Seq<char>)
    ensures
        text.contains('=') ==> exists|prefix: Seq<char>|
            #![trigger prefix.push('=')]
            !prefix.contains('=') && text == prefix.push('=') + joined(list_of(text), seq![',']),
        !text.contains('=') ==> text == joined(list_of(text), seq![',']),
        forall|i: int|
            0 <= i < list_of(text).len() ==> !(#[trigger] list_of(text)[i]).contains(','),
{
    law_parts_make_up_the_text(text, '=');
    law_pieces_make_up_the_text(behind_band(text), ',');
    if let Some((prefix, list)) = parted(text, '=') {
        assert(text == prefix.push('=') + list);
        assert(text[prefix.len() as int] == '=');
    }
}

/// Some band has the classes that an argument for it writes down.
pub open spec fn is_taken_up(
    arg: QuantizeArg,
    names: Seq<Seq<char>>,
    quantize: Seq<Option<Classes>>,
) -> bool {
    exists|band: int|
        #![trigger quantize[band]]
        {
            &&& is_about(arg.text@, names, band)
            &&& quantize[band] is Some
            &&& are_written(quantize[band]->Some_0, list_of(arg.text@), arg.entries@, band)
        }
}

/// One of the first `n` arguments is about a band, and writes down its classes.
pub open spec fn is_asked_for(
    args: Seq<QuantizeArg>,
    names: Seq<Seq<char>>,
    n: nat,
    band: int,
    classes: Classes,
) -> bool {
    exists|a: int|
        {
            &&& 0 <= a < n
            &&& is_about((#[trigger] args[a]).text@, names, band)
            &&& are_written(classes, list_of(args[a].text@), args[a].entries@, band)
        }
}

/// Resolving gives each band that an argument is about the classes that the argument writes down,
/// and no other band any.
pub proof fn law_classes_are_as_written(args: Seq<QuantizeArg>, names: Seq<Seq<char>>, n: nat)
    requires
        n <= args.len(),
        forall|i: int|
            0 <= i < args.len() ==> (#[trigger] args[i]).well_formed() && args[i].placed(
                names.len(),
            ),
    ensures
        resolved(args, names, n) matches Ok(quantize) ==> {
            &&& quantize.len() == names.len()
            &&& forall|a: int|
                0 <= a < n ==> #[trigger] is_taken_up(args[a], names, quantize)
            &&& forall|band: int|
                0 <= band < names.len() && quantize[band] is Some ==> #[trigger] is_asked_for(
                    args,
                    names,
                    n,
                    band,
                    quantize[band]->Some_0,
                )
        },
    decreases n,
{
    if n > 0 {
        law_classes_are_as_written(args, names, (n - 1) as nat);
        let arg = args[n - 1];
        lemma_band_of(arg.text@, names, OptionName::Quantize);
        lemma_entries_are_written(list_of(arg.text@), arg.entries@, arg.entries@.len());
        if let Ok(quantize) = resolved(args, names, n) {
            let before = resolved(args, names, (n - 1) as nat)->Ok_0;
            let place = band_of(arg.text@, names, OptionName::Quantize)->Ok_0;
            let classes = quantize[place]->Some_0;
            assert(are_written(classes, list_of(arg.text@), arg.entries@, place)) by {
                assert forall|c: int| 0 <= c < arg.entries@.len() implies classes.raw_bounds[c] == (
                #[trigger] arg.entries@[c]).raw_bounds@[place] by {}
            }
            assert forall|a: int| 0 <= a < n implies #[trigger] is_taken_up(
                args[a],
                names,
                quantize,
            ) by {
                if a == n - 1 {
                    assert(quantize[place] is Some);
                } else {
                    assert(is_taken_up(args[a], names, before));
                    let band = choose|band: int|
                        #![trigger before[band]]
                        {
                            &&& is_about(args[a].text@, names, band)
                            &&& before[band] is Some
                            &&& are_written(
                                before[band]->Some_0,
                                list_of(args[a].text@),
                                args[a].entries@,
                                band,
                            )
                        };
                    assert(quantize[band] == before[band]);
                }
            }
            assert forall|band: int|
                0 <= band < names.len() && quantize[band] is Some implies #[trigger] is_asked_for(
                args,
                names,
                n,
                band,
                quantize[band]->Some_0,
            ) by {
                if band == place {
                    assert(is_about(args[n - 1].text@, names, band));
                } else {
                    assert(quantize[band] == before[band]);
                    assert(is_asked_for(
                        args,
                        names,
                        (n - 1) as nat,
                        band,
                        before[band]->Some_0,
                    ));
                    let a = choose|a: int|
                        {
                            &&& 0 <= a < n - 1
                            &&& is_about((#[trigger] args[a]).text@, names, band)
                            &&& are_written(
                                before[band]->Some_0,
                                list_of(args[a].text@),
                                args[a].entries@,
                                band,
                            )
                        };
                    assert(is_about(args[a].text@, names, band));
                }
            }
        }
    }
}

/// The list can be classes of a band: every entry has a finite boundary and, behind a colon, a
/// finite value; the boundaries increase, and so do their raw values.
pub open spec fn is_good_list(
    list: Seq<Seq<char>>,
    entries: Seq<QuantizeEntry>,
    band: int,
) -> bool {
    &&& forall|c: int|
        0 <= c < entries.len() ==> {
            &&& trimmed(list[c]).len() > 0
            &&& (#[trigger] entries[c]).bound is Finite
            &&& list[c].contains(':') ==> entries[c].output is Finite
        }
    &&& forall|c: int, d: int|
        0 <= c < d < entries.len() ==> {
            &&& less((#[trigger] entries[c]).bound->Finite_0, (#[trigger] entries[d]).bound->Finite_0)
            &&& entries[c].raw_bounds@[band] < entries[d].raw_bounds@[band]
        }
}

/// A list that can be classes of a band becomes classes of it.
pub proof fn law_good_lists_become_classes(
    list: Seq<Seq<char>>,
    entries: Seq<QuantizeEntry>,
    band: int,
    name: Seq<char>,
)
    requires
        is_good_list(list, entries, band),
    ensures
        classes_of(list, entries, band, name) is Ok,
{
    lemma_good_entries(list, entries, band, entries.len());
    lemma_good_raws(list, entries, band, entries.len());
}

proof fn lemma_good_entries(
    list: Seq<Seq<char>>,
    entries: Seq<QuantizeEntry>,
    band: int,
    n: nat,
)
    requires
        n <= entries.len(),
        is_good_list(list, entries, band),
    ensures
        entries_read(list, entries, n) is Ok,
        entries_read(list, entries, n)->Ok_0.0.len() == n,
        n > 0 ==> entries_read(list, entries, n)->Ok_0.0.last() == entries[n - 1].bound->Finite_0,
    decreases n,
{
    if n > 0 {
        lemma_good_entries(list, entries, band, (n - 1) as nat);
        law_trimming_keeps_the_rest(list[n - 1], ':');
        law_parts_make_up_the_text(trimmed(list[n - 1]), ':');
        if let Some((before, after)) = parted(trimmed(list[n - 1]), ':') {
            let s = trimmed(list[n - 1]);
            assert(s == before.push(':') + after);
            assert(s[before.len() as int] == ':');
        }
        assert(entries[n - 1].bound is Finite);
        if n > 1 {
            assert(less(entries[n - 2].bound->Finite_0, entries[n - 1].bound->Finite_0));
        }
    }
}

proof fn lemma_good_raws(list: Seq<Seq<char>>, entries: Seq<QuantizeEntry>, band: int, n: nat)
    requires
        n <= entries.len(),
        is_good_list(list, entries, band),
    ensures
        first_clash(raw_in_band(entries, band), n) is None,
    decreases n,
{
    if n > 1 {
        lemma_good_raws(list, entries, band, (n - 1) as nat);
        assert(entries[n - 2].raw_bounds@[band] < entries[n - 1].raw_bounds@[band]);
    }
}

/// The argument that the classes of a band come from.
pub proof fn lemma_argument_of(
    args: Seq<QuantizeArg>,
    names: Seq<Seq<char>>,
    quantize: Seq<Option<Classes>>,
    band: int,
) -> (a: int)
    requires
        forall|i: int|
            0 <= i < args.len() ==> (#[trigger] args[i]).well_formed() && args[i].placed(
                names.len(),
            ),
        resolved(args, names, args.len()) == Ok::<Seq<Option<Classes>>, ErrorView>(quantize),
        0 <= band < names.len(),
        quantize[band] is Some,
    ensures
        0 <= a < args.len(),
        is_about(args[a].text@, names, band),
        are_written(quantize[band]->Some_0, list_of(args[a].text@), args[a].entries@, band),
{
    law_classes_are_as_written(args, names, args.len());
    assert(is_asked_for(args, names, args.len(), band, quantize[band]->Some_0));
    choose|a: int|
        {
            &&& 0 <= a < args.len()
            &&& is_about((#[trigger] args[a]).text@, names, band)
            &&& are_written(
                quantize[band]->Some_0,
                list_of(args[a].text@),
                args[a].entries@,
                band,
            )
        }
}

/// The texts of the numbers in an entry are what stands before and after its first colon, but for
/// white space round them; without a colon the entry is the boundary.
pub proof fn law_entries_have_parts(piece: Seq<char>, left: Seq<char>, right: Seq<char>)
    ensures
        piece == left.push(':') + right && !left.contains(':') ==> {
            &&& entry_parts(piece).1 is Some
            &&& is_core_of(entry_parts(piece).0, left)
            &&& is_core_of(entry_parts(piece).1->Some_0, right)
        },
        !piece.contains(':') ==> entry_parts(piece).1 is None && is_core_of(
            entry_parts(piece).0,
            piece,
        ),
{
    let core = trimmed(piece);
    law_trimming_takes_white_space(piece);
    law_trimming_keeps_the_rest(piece, ':');
    law_parts_make_up_the_text(core, ':');
    law_trimming_leaves_the_core(piece);
    if let Some((before, after)) = parted(core, ':') {
        assert(core[before.len() as int] == ':');
        assert(core.contains(':'));
    }
    if piece == left.push(':') + right && !left.contains(':') {
        assert(piece[left.len() as int] == ':');
        assert(piece.contains(':'));
        let (before, after) = parted(core, ':')->Some_0;
        let (lead, trail) = choose|lead: Seq<char>, trail: Seq<char>|
            #![trigger lead + core + trail]
            all_white(lead) && all_white(trail) && piece == lead + core + trail;
        lemma_first_colon(piece, left, right, lead, before, after, trail);
        law_trimming_leaves_the_core(before);
        law_trimming_leaves_the_core(after);
        lemma_core_in_front(before, trimmed(before), lead);
        lemma_core_behind(after, trimmed(after), trail);
    }
}

#[verifier::spinoff_prover]
proof fn lemma_first_colon(
    piece: Seq<char>,
    left: Seq<char>,
    right: Seq<char>,
    lead: Seq<char>,
    before: Seq<char>,
    after: Seq<char>,
    trail: Seq<char>,
)
    requires
        piece == left.push(':') + right,
        !left.contains(':'),
        piece == lead + (before.push(':') + after) + trail,
        !before.contains(':'),
        all_white(lead),
    ensures
        left == lead + before,
        right == after + trail,
{
    let front = lead + before;
    let start = front.len() as int;
    assert(piece =~= front.push(':') + (after + trail));
    assert(piece[start] == ':');
    assert(piece[left.len() as int] == ':');
    if left.len() < start {
        let i = left.len() as int;
        assert(front[i] == ':');
        if i < lead.len() {
            assert(is_white(lead[i]));
        } else {
            assert(before[i - lead.len()] == ':');
        }
    } else if start < left.len() {
        assert(left[start] == ':');
    }
    assert(left =~= piece.take(start));
    assert(front =~= piece.take(start));
    assert(right =~= piece.skip(start + 1));
    assert(after + trail =~= piece.skip(start + 1));
}

proof fn lemma_core_in_front(s: Seq<char>, core: Seq<char>, more: Seq<char>)
    requires
        is_core_of(core, s),
        all_white(more),
    ensures
        is_core_of(core, more + s),
{
    let (lead, trail) = choose|lead: Seq<char>, trail: Seq<char>|
        #![trigger lead + core + trail]
        all_white(lead) && all_white(trail) && s == lead + core + trail;
    let longer = more + lead;
    assert(all_white(longer));
    assert(more + s =~= longer + core + trail);
}

proof fn lemma_core_behind(s: Seq<char>, core: Seq<char>, more: Seq<char>)
    requires
        is_core_of(core, s),
        all_white(more),
    ensures
        is_core_of(core, s + more),
{
    let (lead, trail) = choose|lead: Seq<char>, trail: Seq<char>|
        #![trigger lead + core + trail]
        all_white(lead) && all_white(trail) && s == lead + core + trail;
    let longer = trail + more;
    assert(all_white(longer));
    assert(s + more =~= lead + core + longer);
}

/// The band of an argument is found exactly where the argument is about one; else the error says
/// that a band has to be named, or which name is none of the bands.
pub proof fn law_bands_are_found(text: Seq<char>, names: Seq<Seq<char>>, option: OptionName)
    ensures
        match band_of(text, names, option) {
            Ok(band) => is_about(text, names, band),
            Err(error) => {
                &&& forall|band: int| !#[trigger] is_about(text, names, band)
                &&& match error {
                    ErrorView::MissingBandPrefix { option: named, bands } => named == option
                        && bands == names && !text.contains('=') && names.len() != 1,
                    ErrorView::UnknownBand { option: named, band, bands } => named == option
                        && bands == names && text.contains('=') && !names.contains(band),
                    _ => false,
                }
            },
        },
{
    lemma_band_of(text, names, option);
    law_parts_make_up_the_text(text, '=');
    if let Some((prefix, list)) = parted(text, '=') {
        assert(text[prefix.len() as int] == '=');
        assert(text.contains('='));
    }
    if let Err(error) = band_of(text, names, option) {
        if let Ok(name) = named_band(text, names, option) {
            lemma_first_place_absent(names, name);
            if !text.contains('=') {
                assert(names.contains(names[0]));
            }
            assert forall|band: int| !#[trigger] is_about(text, names, band) by {
                if is_about(text, names, band) {
                    let (p, k) = choose|prefix: Seq<char>, list: Seq<char>|
                        #![trigger prefix.push('=') + list]
                        {
                            &&& text == prefix.push('=') + list
                            &&& !prefix.contains('=')
                            &&& names[band] == trimmed(prefix)
                        };
                    let (q, l) = parted(text, '=')->Some_0;
                    assert(text[p.len() as int] == '=' && text[q.len() as int] == '=');
                    if p.len() < q.len() {
                        assert(q[p.len() as int] == '=');
                    } else if q.len() < p.len() {
                        assert(p[q.len() as int] == '=');
                    }
                    assert(p =~= text.take(p.len() as int));
                    assert(q =~= text.take(p.len() as int));
                    assert(names.contains(names[band]));
                }
            }
        }
    }
}

/// Something is wrong with an entry, as the error says: it is empty, one of its texts is no finite
/// number, or its boundary does not exceed the one before.
pub open spec fn is_faulty(
    list: Seq<Seq<char>>,
    entries: Seq<QuantizeEntry>,
    c: int,
    error: ErrorView,
) -> bool {
    match error {
        ErrorView::EmptyEntry => all_white(list[c]),
        ErrorView::NotANumber { text } => {
            ||| entries[c].bound == Reading::NotANumber && text == entry_parts(list[c]).0
            ||| entries[c].output == Reading::NotANumber && Some(text) == entry_parts(list[c]).1
        },
        ErrorView::NotFinite { text } => {
            ||| entries[c].bound == Reading::NotFinite && text == entry_parts(list[c]).0
            ||| entries[c].output == Reading::NotFinite && Some(text) == entry_parts(list[c]).1
        },
        ErrorView::NotIncreasing { bound, previous } => {
            &&& c > 0
            &&& entries[c].bound == Reading::Finite(bound)
            &&& entries[c - 1].bound == Reading::Finite(previous)
            &&& !less(previous, bound)
        },
        _ => false,
    }
}

/// A list that cannot be read has an entry at fault, and the error is about that entry; the entries
/// before it can be read.
pub proof fn law_faulty_entries_are_told(list: Seq<Seq<char>>, entries: Seq<QuantizeEntry>, n: nat)
    requires
        n <= entries.len(),
    ensures
        entries_read(list, entries, n) matches Err(error) ==> exists|c: int|
            {
                &&& 0 <= c < n
                &&& #[trigger] is_faulty(list, entries, c, error)
                &&& entries_read(list, entries, c as nat) is Ok
            },
    decreases n,
{
    if n > 0 {
        law_faulty_entries_are_told(list, entries, (n - 1) as nat);
        let piece = list[n - 1];
        law_trimming_leaves_the_core(piece);
        lemma_entries_are_written(list, entries, (n - 1) as nat);
        if let Err(error) = entries_read(list, entries, n) {
            if let Ok((bounds, outputs)) = entries_read(list, entries, (n - 1) as nat) {
                if bounds.len() > 0 {
                    assert(entries[n - 2].bound == Reading::Finite(bounds.last()));
                }
                assert(is_faulty(list, entries, n - 1, error));
            } else {
                let c = choose|c: int|
                    {
                        &&& 0 <= c < n - 1
                        &&& #[trigger] is_faulty(list, entries, c, error)
                        &&& entries_read(list, entries, c as nat) is Ok
                    };
                assert(is_faulty(list, entries, c, error));
            }
        }
    }
}

/// Two boundaries are too fine for a band exactly where a later one has no greater raw value than
/// the one before it; the error tells the raw value of the earlier one.
pub proof fn law_clashes_are_told(values: Seq<i32>, n: nat)
    requires
        n <= values.len(),
    ensures
        match first_clash(values, n) {
            None => forall|i: int, j: int|
                0 <= i < j < n ==> (#[trigger] values[i]) < (#[trigger] values[j]),
            Some(raw) => exists|i: int|
                0 <= i < n - 1 && (#[trigger] values[i]) == raw && values[i + 1] <= raw,
        },
    decreases n,
{
    if n > 1 {
        law_clashes_are_told(values, (n - 1) as nat);
        if first_clash(values, (n - 1) as nat) is None && first_clash(values, n) is Some {
            assert(values[n - 2] == first_clash(values, n)->Some_0);
        }
    }
}

} // verus!
