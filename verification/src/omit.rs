//! Values whose cells are left out of the tiles.
//!
//! `--omit` names values of a band: it is an error where a named value cannot occur. `--omit-zero`
//! stands for zero in every band, and means nothing where a band cannot emit zero.
use crate::error::{Error, ErrorView, OptionName};
use crate::number::{equal, Number};
use crate::quantize::{
    all_classes, all_well_formed, band_of, copy_texts, entries_part, find_name, is_about,
    law_classes_emitting, lemma_band_of, list_of, number_read, parse_number, split_band_prefix_for,
    BandQuantize, Classes, Reading,
};
use crate::text::{pieces, split, texts, trimmed};
use crate::vectors::{copied, increasing, lemma_joined_contains, put_in_order};
use vstd::prelude::*;
use vstd::seq_lib::*;

verus! {

/// The numbers of one value to leave out.
#[derive(Debug)]
pub struct OmitEntry {
    pub value: Reading,
    /// The raw value that the number is, in each band of the product, if it is one.
    pub exact: Vec<Option<i32>>,
}

/// An `--omit` argument.
#[derive(Debug)]
pub struct OmitArg {
    pub text: String,
    pub entries: Vec<OmitEntry>,
}

impl OmitArg {
    /// There is an entry for every piece of the list.
    pub open spec fn well_formed(self) -> bool {
        &&& self.entries@.len() == list_of(self.text@).len()
        &&& forall|i: int|
            0 <= i < self.entries@.len() ==> (#[trigger] self.entries@[i]).value.well_formed()
    }

    /// Every value was looked for in each of so many bands.
    pub open spec fn placed(self, bands: nat) -> bool {
        forall|i: int|
            0 <= i < self.entries@.len() ==> (#[trigger] self.entries@[i]).exact@.len() == bands
    }
}

// ---------------------------------------------------------------------------
// What is left out of a band
// ---------------------------------------------------------------------------

/// What is left out of a band.
#[verifier::ext_equal]
pub struct Omission {
    /// The values as the cells carry them: classes where the band is quantized, else raw values.
    pub stored: Set<i32>,
    /// The physical values, in the order in which they were asked for.
    pub physical: Seq<Number>,
}

/// What is left out of a band.
#[derive(Debug)]
pub struct BandOmit {
    stored: Vec<i32>,
    physical: Vec<Number>,
}

impl View for BandOmit {
    type V = Omission;

    closed spec fn view(&self) -> Omission {
        Omission { stored: self.stored@.to_set(), physical: self.physical@ }
    }
}

impl BandOmit {
    /// Whether a value that a cell carries is left out.
    pub fn contains(&self, stored: i32) -> (answer: bool)
        ensures
            answer == self@.stored.contains(stored),
    {
        for i in 0..self.stored.len()
            invariant
                forall|k: int| 0 <= k < i ==> self.stored@[k] != stored,
        {
            if self.stored[i] == stored {
                return true;
            }
        }
        false
    }

    /// The physical values that are left out.
    pub fn physical(&self) -> (physical: &Vec<Number>)
        ensures
            physical@ == self@.physical,
    {
        &self.physical
    }

    /// A copy.
    pub(crate) fn copy(&self) -> (copy: BandOmit)
        ensures
            copy@ == self@,
    {
        BandOmit { stored: copied(&self.stored), physical: copied(&self.physical) }
    }
}

/// What is left out of each band, where anything is.
pub open spec fn all_omissions(omits: Seq<Option<BandOmit>>) -> Seq<Option<Omission>> {
    omits.map_values(
        |entry: Option<BandOmit>| match entry {
            Some(omit) => Some(omit@),
            None => None,
        },
    )
}

/// A copy.
pub fn copy_omits(omits: &Vec<Option<BandOmit>>) -> (copy: Vec<Option<BandOmit>>)
    ensures
        all_omissions(copy@) == all_omissions(omits@),
{
    let mut copy: Vec<Option<BandOmit>> = Vec::new();
    for i in 0..omits.len()
        invariant
            all_omissions(copy@) == all_omissions(omits@).take(i as int),
    {
        let entry = match &omits[i] {
            Some(entry) => Some(entry.copy()),
            None => None,
        };
        proof {
            let all = all_omissions(omits@);
            assert(all_omissions(copy@.push(entry)) =~= all_omissions(copy@).push(all[i as int]));
            assert(all.take(i as int + 1) =~= all.take(i as int).push(all[i as int]));
        }
        copy.push(entry);
    }
    proof {
        let all = all_omissions(omits@);
        assert(all.take(all.len() as int) =~= all);
    }
    copy
}

/// As many bands of which nothing is left out.
pub fn no_omits(count: usize) -> (omits: Vec<Option<BandOmit>>)
    ensures
        omits@.len() == count,
        all_omissions(omits@) == Seq::new(count as nat, |b: int| None::<Omission>),
{
    let mut omits: Vec<Option<BandOmit>> = Vec::new();
    for i in 0..count
        invariant
            omits@.len() == i,
            forall|b: int| 0 <= b < i ==> (#[trigger] omits@[b]) is None,
    {
        omits.push(None);
    }
    proof {
        assert(all_omissions(omits@) =~= Seq::new(count as nat, |b: int| None::<Omission>));
    }
    omits
}

// ---------------------------------------------------------------------------
// What is asked for
// ---------------------------------------------------------------------------

/// A value to leave out of a band.
#[derive(Clone, Copy, Debug)]
pub struct Wanted {
    pub value: Number,
    /// The value was named, and has to exist.
    pub strict: bool,
    /// The raw value of the band that it is, if it is one.
    pub exact: Option<i32>,
}

/// The values that the first `n` entries name for a band.
pub open spec fn omit_read(
    list: Seq<Seq<char>>,
    entries: Seq<OmitEntry>,
    band: int,
    n: nat,
) -> Result<Seq<Wanted>, ErrorView>
    decreases n,
{
    if n == 0 {
        Ok(Seq::empty())
    } else {
        match omit_read(list, entries, band, (n - 1) as nat) {
            Err(error) => Err(error),
            Ok(before) => match number_read(trimmed(list[n - 1]), entries[n - 1].value) {
                Err(error) => Err(error),
                Ok(value) => Ok(
                    before.push(
                        Wanted { value, strict: true, exact: entries[n - 1].exact@[band] },
                    ),
                ),
            },
        }
    }
}

/// What the blanket option and the first `n` arguments ask for, band by band.
pub open spec fn requested(
    args: Seq<OmitArg>,
    omit_zero: bool,
    zeros: Seq<Option<i32>>,
    names: Seq<Seq<char>>,
    n: nat,
) -> Result<Seq<Seq<Wanted>>, ErrorView>
    decreases n,
{
    if n == 0 {
        Ok(
            Seq::new(
                names.len(),
                |b: int|
                    if omit_zero {
                        seq![Wanted { value: Number { bits: 0 }, strict: false, exact: zeros[b] }]
                    } else {
                        Seq::empty()
                    },
            ),
        )
    } else {
        let arg = args[n - 1];
        match requested(args, omit_zero, zeros, names, (n - 1) as nat) {
            Err(error) => Err(error),
            Ok(before) => match band_of(arg.text@, names, OptionName::Omit) {
                Err(error) => Err(error),
                Ok(band) => match omit_read(
                    list_of(arg.text@),
                    arg.entries@,
                    band,
                    arg.entries@.len(),
                ) {
                    Err(error) => Err(error),
                    Ok(read) => Ok(before.update(band, before[band] + read)),
                },
            },
        }
    }
}

/// What the cells of a band carry for a value: the classes that emit it where the band is
/// quantized, else the raw value that it is.
pub open spec fn carried(wanted: Wanted, classes: Option<Classes>, name: Seq<char>) -> Result<
    Seq<i32>,
    ErrorView,
> {
    match classes {
        Some(classes) => {
            let found = classes.classes_emitting(wanted.value);
            if found.len() == 0 && wanted.strict {
                Err(
                    ErrorView::NotAClass {
                        value: wanted.value,
                        band: name,
                        outputs: classes.outputs,
                    },
                )
            } else {
                Ok(found)
            }
        },
        None => match wanted.exact {
            Some(raw) => Ok(seq![raw]),
            None => if wanted.strict {
                Err(ErrorView::BetweenValues { value: wanted.value, band: name })
            } else {
                Ok(Seq::empty())
            },
        },
    }
}

/// What the first `n` wanted values leave out of a band.
pub open spec fn collected(
    wanted: Seq<Wanted>,
    classes: Option<Classes>,
    name: Seq<char>,
    n: nat,
) -> Result<Omission, ErrorView>
    decreases n,
{
    if n == 0 {
        Ok(Omission { stored: Set::empty(), physical: Seq::empty() })
    } else {
        match collected(wanted, classes, name, (n - 1) as nat) {
            Err(error) => Err(error),
            Ok(before) => match carried(wanted[n - 1], classes, name) {
                Err(error) => Err(error),
                Ok(stored) => if stored.len() == 0 {
                    Ok(before)
                } else {
                    Ok(
                        Omission {
                            stored: before.stored.union(stored.to_set()),
                            physical: before.physical.push(wanted[n - 1].value),
                        },
                    )
                },
            },
        }
    }
}

/// What is left out of one band. Something of a quantized band has to stay.
pub open spec fn band_omission(
    wanted: Seq<Wanted>,
    classes: Option<Classes>,
    name: Seq<char>,
) -> Result<Option<Omission>, ErrorView> {
    match collected(wanted, classes, name, wanted.len()) {
        Err(error) => Err(error),
        Ok(omission) => if omission.physical.len() == 0 {
            Ok(None)
        } else if classes is Some && omission.stored.len() >= classes->Some_0.outputs.len() {
            Err(ErrorView::EveryClassOmitted { band: name })
        } else {
            Ok(Some(omission))
        },
    }
}

/// What is left out of the first `n` bands.
pub open spec fn omissions(
    wanted: Seq<Seq<Wanted>>,
    classes: Seq<Option<Classes>>,
    names: Seq<Seq<char>>,
    n: nat,
) -> Result<Seq<Option<Omission>>, ErrorView>
    decreases n,
{
    if n == 0 {
        Ok(Seq::empty())
    } else {
        match omissions(wanted, classes, names, (n - 1) as nat) {
            Err(error) => Err(error),
            Ok(before) => match band_omission(wanted[n - 1], classes[n - 1], names[n - 1]) {
                Err(error) => Err(error),
                Ok(omission) => Ok(before.push(omission)),
            },
        }
    }
}

/// What the options leave out of the bands.
pub open spec fn resolved_omits(
    args: Seq<OmitArg>,
    omit_zero: bool,
    zeros: Seq<Option<i32>>,
    classes: Seq<Option<Classes>>,
    names: Seq<Seq<char>>,
) -> Result<Seq<Option<Omission>>, ErrorView> {
    match requested(args, omit_zero, zeros, names, args.len()) {
        Err(error) => Err(error),
        Ok(wanted) => omissions(wanted, classes, names, names.len()),
    }
}

// ---------------------------------------------------------------------------
// Operations
// ---------------------------------------------------------------------------

/// The wanted values of each band.
pub open spec fn rows(wanted: Seq<Vec<Wanted>>) -> Seq<Seq<Wanted>> {
    wanted.map_values(|row: Vec<Wanted>| row@)
}

proof fn lemma_omit_fault_stays(
    list: Seq<Seq<char>>,
    entries: Seq<OmitEntry>,
    band: int,
    n: nat,
    m: nat,
)
    requires
        n <= m,
        omit_read(list, entries, band, n) is Err,
    ensures
        omit_read(list, entries, band, m) == omit_read(list, entries, band, n),
    decreases m,
{
    if n < m {
        lemma_omit_fault_stays(list, entries, band, n, (m - 1) as nat);
    }
}

/// Reads the values of a list for a band.
fn read_values(list: &str, entries: &Vec<OmitEntry>, band: usize) -> (result: Result<
    Vec<Wanted>,
    Error,
>)
    requires
        entries@.len() == pieces(list@, ',').len(),
        forall|i: int| 0 <= i < entries@.len() ==> band < (#[trigger] entries@[i]).exact@.len(),
    ensures
        match result {
            Ok(wanted) => omit_read(
                pieces(list@, ','),
                entries@,
                band as int,
                entries@.len(),
            ) == Ok::<Seq<Wanted>, ErrorView>(wanted@),
            Err(error) => omit_read(
                pieces(list@, ','),
                entries@,
                band as int,
                entries@.len(),
            ) == Err::<Seq<Wanted>, ErrorView>(error@),
        },
{
    let ghost list_pieces = pieces(list@, ',');
    let parts = split(list, ',');
    let mut wanted: Vec<Wanted> = Vec::new();
    for i in 0..parts.len()
        invariant
            parts@.len() == entries@.len(),
            list_pieces == pieces(list@, ','),
            forall|k: int| 0 <= k < parts@.len() ==> (#[trigger] parts@[k])@ == list_pieces[k],
            forall|k: int| 0 <= k < entries@.len() ==> band < (#[trigger] entries@[k]).exact@.len(),
            omit_read(list_pieces, entries@, band as int, i as nat) == Ok::<
                Seq<Wanted>,
                ErrorView,
            >(wanted@),
    {
        proof {
            if omit_read(list_pieces, entries@, band as int, (i + 1) as nat) is Err {
                lemma_omit_fault_stays(
                    list_pieces,
                    entries@,
                    band as int,
                    (i + 1) as nat,
                    entries@.len(),
                );
            }
            assert(parts@[i as int]@ == list_pieces[i as int]);
        }
        let value = match parse_number(parts[i].as_str(), entries[i].value) {
            Ok(value) => value,
            Err(error) => return Err(error),
        };
        wanted.push(Wanted { value, strict: true, exact: entries[i].exact[band] });
    }
    Ok(wanted)
}

proof fn lemma_requested_fault_stays(
    args: Seq<OmitArg>,
    omit_zero: bool,
    zeros: Seq<Option<i32>>,
    names: Seq<Seq<char>>,
    n: nat,
    m: nat,
)
    requires
        n <= m,
        requested(args, omit_zero, zeros, names, n) is Err,
    ensures
        requested(args, omit_zero, zeros, names, m) == requested(args, omit_zero, zeros, names, n),
    decreases m,
{
    if n < m {
        lemma_requested_fault_stays(args, omit_zero, zeros, names, n, (m - 1) as nat);
    }
}

/// Collects what the options ask for, band by band.
fn request(
    args: &Vec<OmitArg>,
    omit_zero: bool,
    zeros: &Vec<Option<i32>>,
    names: &Vec<String>,
) -> (result: Result<Vec<Vec<Wanted>>, Error>)
    requires
        zeros@.len() == names@.len(),
        forall|i: int|
            0 <= i < args@.len() ==> (#[trigger] args@[i]).well_formed() && args@[i].placed(
                names@.len(),
            ),
    ensures
        match result {
            Ok(wanted) => requested(args@, omit_zero, zeros@, texts(names@), args@.len()) == Ok::<
                Seq<Seq<Wanted>>,
                ErrorView,
            >(rows(wanted@)) && wanted@.len() == names@.len(),
            Err(error) => requested(args@, omit_zero, zeros@, texts(names@), args@.len()) == Err::<
                Seq<Seq<Wanted>>,
                ErrorView,
            >(error@),
        },
{
    let ghost all_names = texts(names@);
    let mut wanted: Vec<Vec<Wanted>> = Vec::new();
    for b in 0..names.len()
        invariant
            zeros@.len() == names@.len(),
            wanted@.len() == b,
            forall|k: int|
                0 <= k < b ==> (#[trigger] wanted@[k])@ == (if omit_zero {
                    seq![Wanted { value: Number { bits: 0 }, strict: false, exact: zeros@[k] }]
                } else {
                    Seq::empty()
                }),
    {
        let mut row: Vec<Wanted> = Vec::new();
        if omit_zero {
            row.push(Wanted { value: Number { bits: 0 }, strict: false, exact: zeros[b] });
        }
        proof {
            assert(row@ =~= if omit_zero {
                seq![Wanted { value: Number { bits: 0 }, strict: false, exact: zeros@[b as int] }]
            } else {
                Seq::empty()
            });
        }
        wanted.push(row);
    }
    proof {
        assert(Ok::<Seq<Seq<Wanted>>, ErrorView>(rows(wanted@)) == requested(
            args@,
            omit_zero,
            zeros@,
            all_names,
            0,
        )) by {
            assert(rows(wanted@) =~= requested(args@, omit_zero, zeros@, all_names, 0)->Ok_0);
        }
    }
    for i in 0..args.len()
        invariant
            all_names == texts(names@),
            wanted@.len() == names@.len(),
            requested(args@, omit_zero, zeros@, all_names, i as nat) == Ok::<
                Seq<Seq<Wanted>>,
                ErrorView,
            >(rows(wanted@)),
            forall|k: int|
                0 <= k < args@.len() ==> (#[trigger] args@[k]).well_formed() && args@[k].placed(
                    names@.len(),
                ),
    {
        proof {
            if requested(args@, omit_zero, zeros@, all_names, (i + 1) as nat) is Err {
                lemma_requested_fault_stays(
                    args@,
                    omit_zero,
                    zeros@,
                    all_names,
                    (i + 1) as nat,
                    args@.len(),
                );
            }
            assert(args@[i as int].well_formed() && args@[i as int].placed(names@.len()));
        }
        let arg = &args[i];
        let (band_name, list) = match split_band_prefix_for(
            arg.text.as_str(),
            names,
            OptionName::Omit,
        ) {
            Ok(parts) => parts,
            Err(error) => return Err(error),
        };
        let band: usize = match find_name(names, band_name) {
            Some(band) => band,
            None => return Err(
                Error::UnknownBand {
                    option: OptionName::Omit,
                    band: band_name.to_owned(),
                    bands: copy_texts(names),
                },
            ),
        };
        let mut read = match read_values(list, &arg.entries, band) {
            Ok(read) => read,
            Err(error) => return Err(error),
        };
        let ghost before = wanted@;
        let ghost added = read@;
        wanted[band].append(&mut read);
        proof {
            assert(rows(wanted@) =~= rows(before).update(
                band as int,
                rows(before)[band as int] + added,
            ));
        }
    }
    Ok(wanted)
}

proof fn lemma_collected_fault_stays(
    wanted: Seq<Wanted>,
    classes: Option<Classes>,
    name: Seq<char>,
    n: nat,
    m: nat,
)
    requires
        n <= m,
        collected(wanted, classes, name, n) is Err,
    ensures
        collected(wanted, classes, name, m) == collected(wanted, classes, name, n),
    decreases m,
{
    if n < m {
        lemma_collected_fault_stays(wanted, classes, name, n, (m - 1) as nat);
    }
}

/// The classes of a band, where it has any.
pub open spec fn classes_in(quantize: Option<BandQuantize>) -> Option<Classes> {
    match quantize {
        Some(quantize) => Some(quantize@),
        None => None,
    }
}

/// What the cells of a band carry for a value.
fn stored_values(wanted: Wanted, quantize: &Option<BandQuantize>, name: &str) -> (result: Result<
    Vec<i32>,
    Error,
>)
    requires
        *quantize matches Some(quantize) ==> quantize@.well_formed(),
    ensures
        match result {
            Ok(stored) => carried(wanted, classes_in(*quantize), name@) == Ok::<
                Seq<i32>,
                ErrorView,
            >(stored@),
            Err(error) => carried(wanted, classes_in(*quantize), name@) == Err::<
                Seq<i32>,
                ErrorView,
            >(error@),
        },
{
    match quantize {
        Some(quantize) => {
            let found = quantize.classes_emitting(wanted.value);
            if found.len() == 0 && wanted.strict {
                return Err(
                    Error::NotAClass {
                        value: wanted.value,
                        band: name.to_owned(),
                        outputs: copied(quantize.outputs()),
                    },
                );
            }
            Ok(found)
        },
        None => match wanted.exact {
            Some(raw) => {
                let mut stored: Vec<i32> = Vec::new();
                stored.push(raw);
                proof {
                    assert(stored@ =~= seq![raw]);
                }
                Ok(stored)
            },
            None => {
                if wanted.strict {
                    return Err(
                        Error::BetweenValues { value: wanted.value, band: name.to_owned() },
                    );
                }
                let stored: Vec<i32> = Vec::new();
                proof {
                    assert(stored@ =~= Seq::empty());
                }
                Ok(stored)
            },
        },
    }
}

/// What is left out of one band.
fn omit_from_band(wanted: &Vec<Wanted>, quantize: &Option<BandQuantize>, name: &str) -> (result:
    Result<Option<BandOmit>, Error>)
    requires
        *quantize matches Some(quantize) ==> quantize@.well_formed(),
    ensures
        match result {
            Ok(Some(omit)) => band_omission(wanted@, classes_in(*quantize), name@) == Ok::<
                Option<Omission>,
                ErrorView,
            >(Some(omit@)),
            Ok(None) => band_omission(wanted@, classes_in(*quantize), name@) == Ok::<
                Option<Omission>,
                ErrorView,
            >(None),
            Err(error) => band_omission(wanted@, classes_in(*quantize), name@) == Err::<
                Option<Omission>,
                ErrorView,
            >(error@),
        },
{
    let ghost classes = classes_in(*quantize);
    let mut stored: Vec<i32> = Vec::new();
    let mut physical: Vec<Number> = Vec::new();
    proof {
        assert(stored@.to_set() =~= Set::empty());
    }
    for i in 0..wanted.len()
        invariant
            *quantize matches Some(quantize) ==> quantize@.well_formed(),
            classes == classes_in(*quantize),
            increasing(stored@),
            collected(wanted@, classes, name@, i as nat) == Ok::<Omission, ErrorView>(
                Omission { stored: stored@.to_set(), physical: physical@ },
            ),
    {
        proof {
            if collected(wanted@, classes, name@, (i + 1) as nat) is Err {
                lemma_collected_fault_stays(wanted@, classes, name@, (i + 1) as nat, wanted@.len());
            }
        }
        let found = match stored_values(wanted[i], quantize, name) {
            Ok(found) => found,
            Err(error) => return Err(error),
        };
        let ghost before = stored@.to_set();
        if found.len() > 0 {
            physical.push(wanted[i].value);
            for k in 0..found.len()
                invariant
                    increasing(stored@),
                    stored@.to_set() == before.union(found@.take(k as int).to_set()),
            {
                let ghost so_far = stored@.to_set();
                put_in_order(&mut stored, found[k]);
                proof {
                    let now = found@.take(k as int + 1);
                    let prior = found@.take(k as int);
                    assert(now =~= prior.push(found@[k as int]));
                    assert(now.to_set() =~= prior.to_set().insert(found@[k as int])) by {
                        assert(now[k as int] == found@[k as int]);
                        assert forall|x: i32| prior.contains(x) implies now.contains(x) by {
                            let p = choose|p: int| 0 <= p < prior.len() && prior[p] == x;
                            assert(now[p] == x);
                        }
                        assert forall|x: i32| now.contains(x) && x != found@[k as int] implies prior.contains(x) by {
                            let p = choose|p: int| 0 <= p < now.len() && now[p] == x;
                            assert(prior[p] == x);
                        }
                    }
                    assert(stored@.to_set() =~= before.union(now.to_set()));
                }
            }
            proof {
                assert(found@.take(found@.len() as int) =~= found@);
            }
        }
    }
    if physical.len() == 0 {
        return Ok(None);
    }
    proof {
        stored@.unique_seq_to_set();
    }
    if let Some(quantize) = quantize {
        if stored.len() >= quantize.class_count() {
            return Err(Error::EveryClassOmitted { band: name.to_owned() });
        }
    }
    Ok(Some(BandOmit { stored, physical }))
}

proof fn lemma_omissions_fault_stays(
    wanted: Seq<Seq<Wanted>>,
    classes: Seq<Option<Classes>>,
    names: Seq<Seq<char>>,
    n: nat,
    m: nat,
)
    requires
        n <= m,
        omissions(wanted, classes, names, n) is Err,
    ensures
        omissions(wanted, classes, names, m) == omissions(wanted, classes, names, n),
    decreases m,
{
    if n < m {
        lemma_omissions_fault_stays(wanted, classes, names, n, (m - 1) as nat);
    }
}

/// Resolves `--omit` and `--omit-zero` into what is left out of each band.
///
/// `zeros` holds the raw value that zero is in each band, if it is one.
pub fn resolve_omits(
    args: &Vec<OmitArg>,
    omit_zero: bool,
    zeros: &Vec<Option<i32>>,
    quantize: &Vec<Option<BandQuantize>>,
    names: &Vec<String>,
) -> (result: Result<Vec<Option<BandOmit>>, Error>)
    requires
        zeros@.len() == names@.len(),
        quantize@.len() == names@.len(),
        all_well_formed(all_classes(quantize@)),
        forall|i: int|
            0 <= i < args@.len() ==> (#[trigger] args@[i]).well_formed() && args@[i].placed(
                names@.len(),
            ),
    ensures
        match result {
            Ok(omits) => resolved_omits(
                args@,
                omit_zero,
                zeros@,
                all_classes(quantize@),
                texts(names@),
            ) == Ok::<Seq<Option<Omission>>, ErrorView>(all_omissions(omits@)) && omits@.len()
                == names@.len(),
            Err(error) => resolved_omits(
                args@,
                omit_zero,
                zeros@,
                all_classes(quantize@),
                texts(names@),
            ) == Err::<Seq<Option<Omission>>, ErrorView>(error@),
        },
{
    let ghost all_names = texts(names@);
    let ghost classes = all_classes(quantize@);
    let wanted = match request(args, omit_zero, zeros, names) {
        Ok(wanted) => wanted,
        Err(error) => return Err(error),
    };
    let mut omits: Vec<Option<BandOmit>> = Vec::new();
    proof {
        assert(all_omissions(omits@) =~= Seq::empty());
    }
    for b in 0..wanted.len()
        invariant
            wanted@.len() == names@.len(),
            quantize@.len() == names@.len(),
            all_names == texts(names@),
            classes == all_classes(quantize@),
            all_well_formed(classes),
            omits@.len() == b,
            requested(args@, omit_zero, zeros@, all_names, args@.len()) == Ok::<
                Seq<Seq<Wanted>>,
                ErrorView,
            >(rows(wanted@)),
            omissions(rows(wanted@), classes, all_names, b as nat) == Ok::<
                Seq<Option<Omission>>,
                ErrorView,
            >(all_omissions(omits@)),
    {
        proof {
            if omissions(rows(wanted@), classes, all_names, (b + 1) as nat) is Err {
                lemma_omissions_fault_stays(
                    rows(wanted@),
                    classes,
                    all_names,
                    (b + 1) as nat,
                    names@.len(),
                );
            }
            assert(classes[b as int] == classes_in(quantize@[b as int]));
        }
        let omit = match omit_from_band(&wanted[b], &quantize[b], names[b].as_str()) {
            Ok(omit) => omit,
            Err(error) => return Err(error),
        };
        let ghost before = omits@;
        omits.push(omit);
        proof {
            assert(all_omissions(omits@) =~= all_omissions(before).push(
                match omit {
                    Some(omit) => Some(omit@),
                    None => None,
                },
            ));
        }
    }
    Ok(omits)
}

/// What is wrong with the first faulty one of `n` `--omit` arguments, bands aside.
pub open spec fn omit_syntax_fault(args: Seq<OmitArg>, n: nat) -> Option<ErrorView>
    decreases n,
{
    if n == 0 {
        None
    } else {
        match omit_syntax_fault(args, (n - 1) as nat) {
            Some(error) => Some(error),
            None => first_bad_value(
                list_of(args[n - 1].text@),
                args[n - 1].entries@,
                args[n - 1].entries@.len(),
            ),
        }
    }
}

/// What is wrong with the first of `n` entries that is no finite number.
pub open spec fn first_bad_value(
    list: Seq<Seq<char>>,
    entries: Seq<OmitEntry>,
    n: nat,
) -> Option<ErrorView>
    decreases n,
{
    if n == 0 {
        None
    } else {
        match first_bad_value(list, entries, (n - 1) as nat) {
            Some(error) => Some(error),
            None => match number_read(trimmed(list[n - 1]), entries[n - 1].value) {
                Err(error) => Some(error),
                Ok(_) => None,
            },
        }
    }
}

proof fn lemma_bad_value_stays(list: Seq<Seq<char>>, entries: Seq<OmitEntry>, n: nat, m: nat)
    requires
        n <= m,
        first_bad_value(list, entries, n) is Some,
    ensures
        first_bad_value(list, entries, m) == first_bad_value(list, entries, n),
    decreases m,
{
    if n < m {
        lemma_bad_value_stays(list, entries, n, (m - 1) as nat);
    }
}

proof fn lemma_omit_syntax_fault_stays(args: Seq<OmitArg>, n: nat, m: nat)
    requires
        n <= m,
        omit_syntax_fault(args, n) is Some,
    ensures
        omit_syntax_fault(args, m) == omit_syntax_fault(args, n),
    decreases m,
{
    if n < m {
        lemma_omit_syntax_fault_stays(args, n, (m - 1) as nat);
    }
}

/// Checks the syntax of the `--omit` arguments, which needs no product.
pub fn validate_omit_syntax(args: &Vec<OmitArg>) -> (result: Result<(), Error>)
    requires
        forall|i: int| 0 <= i < args@.len() ==> (#[trigger] args@[i]).well_formed(),
    ensures
        match result {
            Ok(()) => omit_syntax_fault(args@, args@.len()) is None,
            Err(error) => omit_syntax_fault(args@, args@.len()) == Some(error@),
        },
{
    for i in 0..args.len()
        invariant
            omit_syntax_fault(args@, i as nat) is None,
            forall|k: int| 0 <= k < args@.len() ==> (#[trigger] args@[k]).well_formed(),
    {
        proof {
            assert(args@[i as int].well_formed());
            if omit_syntax_fault(args@, (i + 1) as nat) is Some {
                lemma_omit_syntax_fault_stays(args@, (i + 1) as nat, args@.len());
            }
        }
        let entries = &args[i].entries;
        let parts = split(entries_part(args[i].text.as_str()), ',');
        let ghost list = list_of(args@[i as int].text@);
        for k in 0..parts.len()
            invariant
                parts@.len() == entries@.len(),
                entries@ == args@[i as int].entries@,
                0 <= i < args@.len(),
                list == list_of(args@[i as int].text@),
                forall|p: int| 0 <= p < parts@.len() ==> (#[trigger] parts@[p])@ == list[p],
                first_bad_value(list, entries@, k as nat) is None,
                omit_syntax_fault(args@, i as nat) is None,
                omit_syntax_fault(args@, (i + 1) as nat) is Some ==> omit_syntax_fault(
                    args@,
                    args@.len(),
                ) == omit_syntax_fault(args@, (i + 1) as nat),
        {
            proof {
                assert(parts@[k as int]@ == list[k as int]);
                if first_bad_value(list, entries@, (k + 1) as nat) is Some {
                    lemma_bad_value_stays(list, entries@, (k + 1) as nat, entries@.len());
                }
            }
            match parse_number(parts[k].as_str(), entries[k].value) {
                Ok(_) => {},
                Err(error) => return Err(error),
            }
        }
    }
    Ok(())
}

// ---------------------------------------------------------------------------
// Laws
// ---------------------------------------------------------------------------

proof fn lemma_what_is_read_is_good(
    list: Seq<Seq<char>>,
    entries: Seq<OmitEntry>,
    band: int,
    n: nat,
)
    ensures
        omit_read(list, entries, band, n) is Ok ==> first_bad_value(list, entries, n) is None,
    decreases n,
{
    if n > 0 {
        lemma_what_is_read_is_good(list, entries, band, (n - 1) as nat);
    }
}

proof fn lemma_what_is_requested_is_well_written(
    args: Seq<OmitArg>,
    omit_zero: bool,
    zeros: Seq<Option<i32>>,
    names: Seq<Seq<char>>,
    n: nat,
)
    ensures
        requested(args, omit_zero, zeros, names, n) is Ok ==> omit_syntax_fault(args, n) is None,
    decreases n,
{
    if n > 0 {
        lemma_what_is_requested_is_well_written(args, omit_zero, zeros, names, (n - 1) as nat);
        let arg = args[n - 1];
        if let Ok(band) = band_of(arg.text@, names, OptionName::Omit) {
            lemma_what_is_read_is_good(
                list_of(arg.text@),
                arg.entries@,
                band,
                arg.entries@.len(),
            );
        }
    }
}

/// Arguments that resolve against some bands have no fault in their syntax.
pub proof fn law_resolved_omits_are_well_written(
    args: Seq<OmitArg>,
    omit_zero: bool,
    zeros: Seq<Option<i32>>,
    classes: Seq<Option<Classes>>,
    names: Seq<Seq<char>>,
)
    ensures
        resolved_omits(args, omit_zero, zeros, classes, names) is Ok ==> omit_syntax_fault(
            args,
            args.len(),
        ) is None,
{
    lemma_what_is_requested_is_well_written(args, omit_zero, zeros, names, args.len());
}

/// Without either option nothing is left out of any band.
pub proof fn law_nothing_is_omitted_without_the_options(
    zeros: Seq<Option<i32>>,
    classes: Seq<Option<Classes>>,
    names: Seq<Seq<char>>,
)
    ensures
        resolved_omits(Seq::empty(), false, zeros, classes, names) == Ok::<
            Seq<Option<Omission>>,
            ErrorView,
        >(Seq::new(names.len(), |b: int| None::<Omission>)),
{
    let wanted = requested(Seq::empty(), false, zeros, names, 0)->Ok_0;
    lemma_nothing_wanted(wanted, classes, names, names.len());
}

proof fn lemma_nothing_wanted(
    wanted: Seq<Seq<Wanted>>,
    classes: Seq<Option<Classes>>,
    names: Seq<Seq<char>>,
    n: nat,
)
    requires
        n <= wanted.len(),
        forall|b: int| 0 <= b < wanted.len() ==> (#[trigger] wanted[b]).len() == 0,
    ensures
        omissions(wanted, classes, names, n) == Ok::<Seq<Option<Omission>>, ErrorView>(
            Seq::new(n, |b: int| None::<Omission>),
        ),
    decreases n,
{
    if n > 0 {
        lemma_nothing_wanted(wanted, classes, names, (n - 1) as nat);
        assert(wanted[n - 1].len() == 0);
        assert(Seq::new((n - 1) as nat, |b: int| None::<Omission>).push(None) =~= Seq::new(
            n,
            |b: int| None::<Omission>,
        ));
    } else {
        assert(Seq::new(0, |b: int| None::<Omission>) =~= Seq::empty());
    }
}

/// The blanket option means nothing for a quantized band no class of which emits zero.
pub proof fn law_omit_zero_is_lenient(
    zero: Option<i32>,
    classes: Classes,
    name: Seq<char>,
)
    requires
        classes.well_formed(),
        classes.classes_emitting(Number { bits: 0 }).len() == 0,
    ensures
        band_omission(
            seq![Wanted { value: Number { bits: 0 }, strict: false, exact: zero }],
            Some(classes),
            name,
        ) == Ok::<Option<Omission>, ErrorView>(None),
{
    let wanted = seq![Wanted { value: Number { bits: 0 }, strict: false, exact: zero }];
    reveal_with_fuel(collected, 2);
    assert(collected(wanted, Some(classes), name, 0) is Ok);
}

/// A value that cells carry is left out exactly where some wanted value stands for it.
pub proof fn law_only_what_is_wanted_is_omitted(
    wanted: Seq<Wanted>,
    classes: Option<Classes>,
    name: Seq<char>,
    n: nat,
    stored: i32,
)
    requires
        n <= wanted.len(),
    ensures
        collected(wanted, classes, name, n) matches Ok(omission) ==> (omission.stored.contains(
            stored,
        ) <==> exists|i: int|
            0 <= i < n && carried(#[trigger] wanted[i], classes, name)->Ok_0.contains(stored)),
    decreases n,
{
    if n > 0 {
        law_only_what_is_wanted_is_omitted(wanted, classes, name, (n - 1) as nat, stored);
        let now = carried(wanted[n - 1], classes, name);
        if let Ok(omission) = collected(wanted, classes, name, n) {
            let before = collected(wanted, classes, name, (n - 1) as nat)->Ok_0;
            assert(omission.stored.contains(stored) <==> before.stored.contains(stored)
                || now->Ok_0.contains(stored));
            if now->Ok_0.contains(stored) {
                assert(carried(wanted[n - 1], classes, name)->Ok_0.contains(stored));
            }
        }
    }
}

/// What is left out of a quantized band leaves at least one class.
pub proof fn law_some_class_stays(wanted: Seq<Wanted>, classes: Classes, name: Seq<char>)
    requires
        classes.well_formed(),
    ensures
        band_omission(wanted, Some(classes), name) matches Ok(Some(omission)) ==> exists|class: i32|
            0 <= class < classes.outputs.len() && !(#[trigger] omission.stored.contains(class)),
{
    if let Ok(Some(omission)) = band_omission(wanted, Some(classes), name) {
        lemma_collected_finite(wanted, Some(classes), name, wanted.len());
        if forall|class: i32|
            0 <= class < classes.outputs.len() ==> #[trigger] omission.stored.contains(class) {
            let every = Seq::new(classes.outputs.len(), |i: int| i as i32);
            every.unique_seq_to_set();
            assert forall|x: i32| every.to_set().contains(x) implies omission.stored.contains(x) by {
                let p = choose|p: int| 0 <= p < every.len() && every[p] == x;
                assert(every[p] == p);
            }
            vstd::set_lib::lemma_len_subset(every.to_set(), omission.stored);
        }
    }
}

proof fn lemma_collected_finite(
    wanted: Seq<Wanted>,
    classes: Option<Classes>,
    name: Seq<char>,
    n: nat,
)
    ensures
        collected(wanted, classes, name, n) matches Ok(omission) ==> omission.stored.finite(),
    decreases n,
{
    if n > 0 {
        lemma_collected_finite(wanted, classes, name, (n - 1) as nat);
        if let Ok(stored) = carried(wanted[n - 1], classes, name) {
            seq_to_set_is_finite(stored);
        }
    }
}

// ---------------------------------------------------------------------------
// What the options leave out
// ---------------------------------------------------------------------------

/// What the cells of a band carry stands for a number: it is a class that emits the number where the
/// band is quantized, else the raw value that the number is.
pub open spec fn stands_for(
    classes: Option<Classes>,
    stored: i32,
    value: Number,
    exact: Option<i32>,
) -> bool {
    match classes {
        Some(classes) => 0 <= stored < classes.outputs.len() && equal(
            classes.outputs[stored as int],
            value,
        ),
        None => exact == Some(stored),
    }
}

/// An entry of one of the first `n` arguments names the number for a band.
pub open spec fn is_named(
    args: Seq<OmitArg>,
    names: Seq<Seq<char>>,
    b: int,
    n: nat,
    value: Number,
    exact: Option<i32>,
) -> bool {
    exists|a: int, e: int|
        {
            &&& 0 <= a < n
            &&& 0 <= e < args[a].entries@.len()
            &&& is_about(args[a].text@, names, b)
            &&& (#[trigger] args[a].entries@[e]).value == Reading::Finite(value)
            &&& args[a].entries@[e].exact@[b] == exact
        }
}

/// Some number that the options ask to leave out of a band is what the cells carry.
pub open spec fn is_to_go(
    args: Seq<OmitArg>,
    omit_zero: bool,
    zeros: Seq<Option<i32>>,
    classes: Option<Classes>,
    names: Seq<Seq<char>>,
    b: int,
    stored: i32,
) -> bool {
    ||| omit_zero && stands_for(classes, stored, Number { bits: 0 }, zeros[b])
    ||| exists|value: Number, exact: Option<i32>|
        #[trigger] is_named(args, names, b, args.len(), value, exact) && stands_for(
            classes,
            stored,
            value,
            exact,
        )
}

proof fn lemma_omit_read(
    list: Seq<Seq<char>>,
    entries: Seq<OmitEntry>,
    band: int,
    n: nat,
    w: Wanted,
)
    requires
        n <= entries.len(),
    ensures
        omit_read(list, entries, band, n) matches Ok(read) ==> (read.contains(w) <==> w.strict
            && exists|e: int|
            {
                &&& 0 <= e < n
                &&& (#[trigger] entries[e]).value == Reading::Finite(w.value)
                &&& entries[e].exact@[band] == w.exact
            }),
    decreases n,
{
    if n > 0 {
        lemma_omit_read(list, entries, band, (n - 1) as nat, w);
        if let Ok(read) = omit_read(list, entries, band, n) {
            let before = omit_read(list, entries, band, (n - 1) as nat)->Ok_0;
            let last = read[before.len() as int];
            assert(read == before.push(last));
            assert(entries[n - 1].value == Reading::Finite(last.value));
            lemma_pushed(before, last, w);
            if last == w {
                assert(entries[n - 1].exact@[band] == w.exact);
            }
        }
    }
}

proof fn lemma_pushed<T>(items: Seq<T>, last: T, x: T)
    ensures
        items.push(last).contains(x) <==> items.contains(x) || last == x,
{
    let all = items.push(last);
    if items.contains(x) {
        let i = choose|i: int| 0 <= i < items.len() && items[i] == x;
        assert(all[i] == x);
    }
    if last == x {
        assert(all[items.len() as int] == x);
    }
    if all.contains(x) {
        let i = choose|i: int| 0 <= i < all.len() && all[i] == x;
        if i < items.len() {
            assert(items[i] == x);
        }
    }
}

proof fn lemma_one_band(text: Seq<char>, names: Seq<Seq<char>>, a: int, b: int)
    requires
        names.no_duplicates(),
        is_about(text, names, a),
        is_about(text, names, b),
    ensures
        a == b,
{
    if text.contains('=') {
        let (p, k) = choose|prefix: Seq<char>, list: Seq<char>|
            #![trigger prefix.push('=') + list]
            {
                &&& text == prefix.push('=') + list
                &&& !prefix.contains('=')
                &&& names[a] == trimmed(prefix)
            };
        let (q, l) = choose|prefix: Seq<char>, list: Seq<char>|
            #![trigger prefix.push('=') + list]
            {
                &&& text == prefix.push('=') + list
                &&& !prefix.contains('=')
                &&& names[b] == trimmed(prefix)
            };
        assert(text[p.len() as int] == '=' && text[q.len() as int] == '=');
        if p.len() < q.len() {
            assert(q[p.len() as int] == '=');
        } else if q.len() < p.len() {
            assert(p[q.len() as int] == '=');
        }
        assert(p =~= text.take(p.len() as int));
        assert(q =~= text.take(p.len() as int));
    }
}

proof fn lemma_requested(
    args: Seq<OmitArg>,
    omit_zero: bool,
    zeros: Seq<Option<i32>>,
    names: Seq<Seq<char>>,
    n: nat,
    b: int,
    w: Wanted,
)
    requires
        n <= args.len(),
        names.no_duplicates(),
        0 <= b < names.len(),
    ensures
        requested(args, omit_zero, zeros, names, n) matches Ok(wanted) ==> wanted.len()
            == names.len() && (wanted[b].contains(w) <==> {
            ||| omit_zero && w == (Wanted {
                value: Number { bits: 0 },
                strict: false,
                exact: zeros[b],
            })
            ||| w.strict && is_named(args, names, b, n, w.value, w.exact)
        }),
    decreases n,
{
    if n == 0 {
        let zero = Wanted { value: Number { bits: 0 }, strict: false, exact: zeros[b] };
        let wanted = requested(args, omit_zero, zeros, names, 0)->Ok_0;
        if omit_zero {
            assert(wanted[b] == seq![zero]);
            assert(seq![zero][0] == zero);
        }
    } else {
        let m = (n - 1) as nat;
        lemma_requested(args, omit_zero, zeros, names, m, b, w);
        if let Ok(wanted) = requested(args, omit_zero, zeros, names, n) {
            let before = requested(args, omit_zero, zeros, names, m)->Ok_0;
            let arg = args[n - 1];
            let band = band_of(arg.text@, names, OptionName::Omit)->Ok_0;
            lemma_band_of(arg.text@, names, OptionName::Omit);
            let read = omit_read(list_of(arg.text@), arg.entries@, band, arg.entries@.len())->Ok_0;
            lemma_omit_read(list_of(arg.text@), arg.entries@, band, arg.entries@.len(), w);
            lemma_joined_contains(before[band], read, w);
            if is_named(args, names, b, n, w.value, w.exact) {
                let (a, e) = choose|a: int, e: int|
                    {
                        &&& 0 <= a < n
                        &&& 0 <= e < args[a].entries@.len()
                        &&& is_about(args[a].text@, names, b)
                        &&& (#[trigger] args[a].entries@[e]).value == Reading::Finite(w.value)
                        &&& args[a].entries@[e].exact@[b] == w.exact
                    };
                if a == n - 1 {
                    lemma_one_band(arg.text@, names, b, band);
                    assert(arg.entries@[e].value == Reading::Finite(w.value));
                } else {
                    assert(args[a].entries@[e].value == Reading::Finite(w.value));
                    assert(is_named(args, names, b, m, w.value, w.exact));
                }
            }
            if is_named(args, names, b, m, w.value, w.exact) {
                let (a, e) = choose|a: int, e: int|
                    {
                        &&& 0 <= a < m
                        &&& 0 <= e < args[a].entries@.len()
                        &&& is_about(args[a].text@, names, b)
                        &&& (#[trigger] args[a].entries@[e]).value == Reading::Finite(w.value)
                        &&& args[a].entries@[e].exact@[b] == w.exact
                    };
                assert(args[a].entries@[e].value == Reading::Finite(w.value));
            }
            if band == b && read.contains(w) {
                let e = choose|e: int|
                    {
                        &&& 0 <= e < arg.entries@.len()
                        &&& (#[trigger] arg.entries@[e]).value == Reading::Finite(w.value)
                        &&& arg.entries@[e].exact@[band] == w.exact
                    };
                assert(args[n - 1].entries@[e].value == Reading::Finite(w.value));
            }
        }
    }
}

proof fn lemma_carried(wanted: Wanted, classes: Option<Classes>, name: Seq<char>, stored: i32)
    requires
        classes matches Some(classes) ==> classes.well_formed(),
    ensures
        carried(wanted, classes, name) matches Ok(found) ==> {
            &&& found.contains(stored) <==> stands_for(classes, stored, wanted.value, wanted.exact)
            &&& wanted.strict ==> found.len() > 0
        },
{
    match classes {
        Some(classes) => {
            law_classes_emitting(classes, wanted.value, stored);
        },
        None => {
            if let Some(raw) = wanted.exact {
                assert(seq![raw][0] == raw);
            }
        },
    }
}

proof fn lemma_collected(
    wanted: Seq<Wanted>,
    classes: Option<Classes>,
    name: Seq<char>,
    n: nat,
    value: Number,
)
    requires
        n <= wanted.len(),
    ensures
        collected(wanted, classes, name, n) matches Ok(omission) ==> {
            &&& forall|i: int| 0 <= i < n ==> carried(#[trigger] wanted[i], classes, name) is Ok
            &&& omission.physical.len() == 0 ==> forall|i: int|
                0 <= i < n ==> carried(#[trigger] wanted[i], classes, name)->Ok_0.len() == 0
            &&& omission.physical.contains(value) <==> exists|i: int|
                {
                    &&& 0 <= i < n
                    &&& (#[trigger] wanted[i]).value == value
                    &&& carried(wanted[i], classes, name)->Ok_0.len() > 0
                }
        },
    decreases n,
{
    if n > 0 {
        lemma_collected(wanted, classes, name, (n - 1) as nat, value);
        if let Ok(omission) = collected(wanted, classes, name, n) {
            let before = collected(wanted, classes, name, (n - 1) as nat)->Ok_0;
            lemma_pushed(before.physical, wanted[n - 1].value, value);
        }
    }
}

proof fn lemma_omissions(
    wanted: Seq<Seq<Wanted>>,
    classes: Seq<Option<Classes>>,
    names: Seq<Seq<char>>,
    n: nat,
    b: int,
)
    requires
        0 <= b < n,
    ensures
        omissions(wanted, classes, names, n) matches Ok(all) ==> all.len() == n && band_omission(
            wanted[b],
            classes[b],
            names[b],
        ) == Ok::<Option<Omission>, ErrorView>(all[b]),
    decreases n,
{
    if b < n - 1 {
        lemma_omissions(wanted, classes, names, (n - 1) as nat, b);
    } else {
        lemma_omissions_len(wanted, classes, names, (n - 1) as nat);
    }
}

proof fn lemma_omissions_len(
    wanted: Seq<Seq<Wanted>>,
    classes: Seq<Option<Classes>>,
    names: Seq<Seq<char>>,
    n: nat,
)
    ensures
        omissions(wanted, classes, names, n) matches Ok(all) ==> all.len() == n,
    decreases n,
{
    if n > 0 {
        lemma_omissions_len(wanted, classes, names, (n - 1) as nat);
    }
}

/// What is left out of a band, if anything is.
pub open spec fn leaves_out(omission: Option<Omission>, stored: i32) -> bool {
    omission matches Some(omission) && omission.stored.contains(stored)
}

/// Exactly those of a band's values are left out that stand for a number which an argument names for
/// that band, or for zero where all zeros are to go. Every number that is named stands for some
/// value of its band.
pub proof fn law_values_go_where_they_are_asked_to(
    args: Seq<OmitArg>,
    omit_zero: bool,
    zeros: Seq<Option<i32>>,
    classes: Seq<Option<Classes>>,
    names: Seq<Seq<char>>,
    all: Seq<Option<Omission>>,
    b: int,
    stored: i32,
)
    requires
        names.no_duplicates(),
        0 <= b < names.len(),
        classes[b] matches Some(classes) ==> classes.well_formed(),
        resolved_omits(args, omit_zero, zeros, classes, names) == Ok::<
            Seq<Option<Omission>>,
            ErrorView,
        >(all),
    ensures
        all.len() == names.len(),
        leaves_out(all[b], stored) <==> is_to_go(
            args,
            omit_zero,
            zeros,
            classes[b],
            names,
            b,
            stored,
        ),
        forall|value: Number, exact: Option<i32>|
            #[trigger] is_named(args, names, b, args.len(), value, exact) ==> exists|found: i32|
                #[trigger] stands_for(classes[b], found, value, exact),
        all[b] matches Some(omission) ==> forall|value: Number|
            #[trigger] omission.physical.contains(value) ==> {
                ||| omit_zero && value == (Number { bits: 0 })
                ||| exists|exact: Option<i32>|
                    #[trigger] is_named(args, names, b, args.len(), value, exact)
            },
{
    let wanted = requested(args, omit_zero, zeros, names, args.len())->Ok_0;
    let some = Wanted { value: Number { bits: 0 }, strict: false, exact: None };
    lemma_requested(args, omit_zero, zeros, names, args.len(), b, some);
    lemma_omissions(wanted, classes, names, names.len(), b);
    let row = wanted[b];
    let name = names[b];
    let omission = collected(row, classes[b], name, row.len())->Ok_0;
    law_only_what_is_wanted_is_omitted(row, classes[b], name, row.len(), stored);
    lemma_collected(row, classes[b], name, row.len(), Number { bits: 0 });
    assert(leaves_out(all[b], stored) <==> exists|i: int|
        0 <= i < row.len() && carried(#[trigger] row[i], classes[b], name)->Ok_0.contains(stored));
    if leaves_out(all[b], stored) {
        let i = choose|i: int|
            0 <= i < row.len() && carried(#[trigger] row[i], classes[b], name)->Ok_0.contains(
                stored,
            );
        assert(row.contains(row[i]));
        lemma_requested(args, omit_zero, zeros, names, args.len(), b, row[i]);
        lemma_carried(row[i], classes[b], name, stored);
        if row[i].strict {
            assert(is_named(args, names, b, args.len(), row[i].value, row[i].exact));
        }
    }
    if omit_zero && stands_for(classes[b], stored, Number { bits: 0 }, zeros[b]) {
        let zero = Wanted { value: Number { bits: 0 }, strict: false, exact: zeros[b] };
        lemma_requested(args, omit_zero, zeros, names, args.len(), b, zero);
        let i = choose|i: int| 0 <= i < row.len() && row[i] == zero;
        lemma_carried(row[i], classes[b], name, stored);
        assert(carried(row[i], classes[b], name)->Ok_0.contains(stored));
    }
    assert forall|value: Number, exact: Option<i32>|
        #[trigger] is_named(args, names, b, args.len(), value, exact) implies (stands_for(
        classes[b],
        stored,
        value,
        exact,
    ) ==> leaves_out(all[b], stored)) && exists|found: i32|
        #[trigger] stands_for(classes[b], found, value, exact) by {
        let w = Wanted { value, strict: true, exact };
        lemma_requested(args, omit_zero, zeros, names, args.len(), b, w);
        let i = choose|i: int| 0 <= i < row.len() && row[i] == w;
        lemma_carried(row[i], classes[b], name, stored);
        assert(carried(row[i], classes[b], name) is Ok);
        let found = carried(row[i], classes[b], name)->Ok_0;
        assert(found.contains(found[0]));
        lemma_carried(row[i], classes[b], name, found[0]);
        assert(stands_for(classes[b], found[0], value, exact));
        if stands_for(classes[b], stored, value, exact) {
            assert(carried(row[i], classes[b], name)->Ok_0.contains(stored));
        }
    }
    if all[b] is Some {
        assert forall|value: Number| #[trigger] omission.physical.contains(value) implies {
            ||| omit_zero && value == (Number { bits: 0 })
            ||| exists|exact: Option<i32>|
                #[trigger] is_named(args, names, b, args.len(), value, exact)
        } by {
            lemma_collected(row, classes[b], name, row.len(), value);
            let i = choose|i: int|
                {
                    &&& 0 <= i < row.len()
                    &&& (#[trigger] row[i]).value == value
                    &&& carried(row[i], classes[b], name)->Ok_0.len() > 0
                };
            assert(row.contains(row[i]));
            lemma_requested(args, omit_zero, zeros, names, args.len(), b, row[i]);
            if row[i].strict {
                assert(is_named(args, names, b, args.len(), value, row[i].exact));
            }
        }
    }
}

/// How many of the first `n` wanted values stand for something that the cells of a band carry.
pub open spec fn found_before(
    wanted: Seq<Wanted>,
    classes: Option<Classes>,
    name: Seq<char>,
    n: nat,
) -> nat
    decreases n,
{
    if n == 0 {
        0
    } else if carried(wanted[n - 1], classes, name)->Ok_0.len() > 0 {
        found_before(wanted, classes, name, (n - 1) as nat) + 1
    } else {
        found_before(wanted, classes, name, (n - 1) as nat)
    }
}

/// The numbers that are left out of a band stand in the order in which they were asked for.
pub proof fn law_numbers_keep_their_order(
    wanted: Seq<Wanted>,
    classes: Option<Classes>,
    name: Seq<char>,
    n: nat,
    i: int,
)
    requires
        n <= wanted.len(),
        collected(wanted, classes, name, n) is Ok,
    ensures
        collected(wanted, classes, name, n)->Ok_0.physical.len() == found_before(
            wanted,
            classes,
            name,
            n,
        ),
        0 <= i < n && carried(wanted[i], classes, name)->Ok_0.len() > 0 ==> {
            let place = found_before(wanted, classes, name, i as nat) as int;
            let physical = collected(wanted, classes, name, n)->Ok_0.physical;
            place < physical.len() && physical[place] == wanted[i].value
        },
    decreases n,
{
    if n > 0 {
        law_numbers_keep_their_order(wanted, classes, name, (n - 1) as nat, i);
    }
}

/// Some number that was named is none that the cells of a band can carry.
pub open spec fn is_missing(wanted: Seq<Wanted>, classes: Option<Classes>, value: Number) -> bool {
    exists|i: int|
        {
            &&& 0 <= i < wanted.len()
            &&& (#[trigger] wanted[i]).strict
            &&& wanted[i].value == value
            &&& forall|stored: i32| !#[trigger] stands_for(classes, stored, value, wanted[i].exact)
        }
}

proof fn lemma_collecting_fails(
    wanted: Seq<Wanted>,
    classes: Option<Classes>,
    name: Seq<char>,
    n: nat,
)
    requires
        n <= wanted.len(),
        classes matches Some(classes) ==> classes.well_formed(),
    ensures
        collected(wanted, classes, name, n) matches Err(error) ==> match error {
            ErrorView::NotAClass { value, band, outputs } => {
                &&& band == name
                &&& classes matches Some(classes) && outputs == classes.outputs
                &&& is_missing(wanted, classes, value)
            },
            ErrorView::BetweenValues { value, band } => {
                &&& band == name
                &&& classes is None
                &&& is_missing(wanted, classes, value)
            },
            _ => false,
        },
    decreases n,
{
    if n > 0 {
        lemma_collecting_fails(wanted, classes, name, (n - 1) as nat);
        let last = wanted[n - 1];
        if carried(last, classes, name) is Err {
            assert forall|stored: i32| !#[trigger] stands_for(
                classes,
                stored,
                last.value,
                last.exact,
            ) by {
                if let Some(found) = classes {
                    law_classes_emitting(found, last.value, stored);
                }
            }
            assert(last.strict);
        }
    }
}

proof fn lemma_collected_classes(
    wanted: Seq<Wanted>,
    classes: Classes,
    name: Seq<char>,
    n: nat,
)
    requires
        n <= wanted.len(),
        classes.well_formed(),
    ensures
        collected(wanted, Some(classes), name, n) matches Ok(omission) ==> forall|stored: i32|
            #[trigger] omission.stored.contains(stored) ==> 0 <= stored < classes.outputs.len(),
    decreases n,
{
    if n > 0 {
        lemma_collected_classes(wanted, classes, name, (n - 1) as nat);
        if let Ok(omission) = collected(wanted, Some(classes), name, n) {
            let before = collected(wanted, Some(classes), name, (n - 1) as nat)->Ok_0;
            let found = carried(wanted[n - 1], Some(classes), name)->Ok_0;
            assert forall|stored: i32| #[trigger] omission.stored.contains(stored) implies 0 <= stored
                < classes.outputs.len() by {
                if !before.stored.contains(stored) {
                    assert(found.contains(stored));
                    law_classes_emitting(classes, wanted[n - 1].value, stored);
                }
            }
        }
    }
}

/// Leaving values out of a band fails only for a reason, which the error gives: a number that was
/// named is no class of the band or none of its values, or no class of the band would stay.
pub proof fn law_omitting_fails_for_a_reason(
    wanted: Seq<Wanted>,
    classes: Option<Classes>,
    name: Seq<char>,
)
    requires
        classes matches Some(classes) ==> classes.well_formed(),
    ensures
        band_omission(wanted, classes, name) matches Err(error) ==> match error {
            ErrorView::NotAClass { value, band, outputs } => {
                &&& band == name
                &&& classes matches Some(classes) && outputs == classes.outputs
                &&& is_missing(wanted, classes, value)
            },
            ErrorView::BetweenValues { value, band } => {
                &&& band == name
                &&& classes is None
                &&& is_missing(wanted, classes, value)
            },
            ErrorView::EveryClassOmitted { band } => {
                &&& band == name
                &&& classes matches Some(found) && forall|class: i32|
                    0 <= class < found.outputs.len() ==> #[trigger] goes(wanted, classes, class)
            },
            _ => false,
        },
{
    let n = wanted.len();
    lemma_collecting_fails(wanted, classes, name, n);
    if let Err(error) = band_omission(wanted, classes, name) {
        if let Ok(omission) = collected(wanted, classes, name, n) {
            let found = classes->Some_0;
            lemma_collected_finite(wanted, classes, name, n);
            lemma_collected_classes(wanted, found, name, n);
            let every = Seq::new(found.outputs.len(), |i: int| i as i32);
            every.unique_seq_to_set();
            seq_to_set_is_finite(every);
            assert forall|x: i32| omission.stored.contains(x) implies every.to_set().contains(x) by {
                assert(every[x as int] == x);
            }
            vstd::set_lib::lemma_len_subset(omission.stored, every.to_set());
            vstd::set_lib::lemma_subset_equality(omission.stored, every.to_set());
            assert forall|class: i32| 0 <= class < found.outputs.len() implies #[trigger] goes(
                wanted,
                classes,
                class,
            ) by {
                assert(every[class as int] == class);
                assert(omission.stored.contains(class));
                law_only_what_is_wanted_is_omitted(wanted, classes, name, n, class);
                let i = choose|i: int|
                    0 <= i < n && carried(#[trigger] wanted[i], classes, name)->Ok_0.contains(
                        class,
                    );
                lemma_collected(wanted, classes, name, n, Number { bits: 0 });
                lemma_carried(wanted[i], classes, name, class);
                assert(stands_for(classes, class, wanted[i].value, wanted[i].exact));
            }
        }
    }
}

/// Some wanted number is what the cells carry.
pub open spec fn goes(wanted: Seq<Wanted>, classes: Option<Classes>, stored: i32) -> bool {
    exists|i: int|
        0 <= i < wanted.len() && stands_for(
            classes,
            stored,
            (#[trigger] wanted[i]).value,
            wanted[i].exact,
        )
}

} // verus!
