//! What a conversion is asked to do.
use crate::error::{Error, ErrorView};
use crate::omit::{omit_syntax_fault, validate_omit_syntax, OmitArg};
use crate::quantize::{
    copy_texts, find_name, first_place, lemma_first_place_absent, lemma_first_place_within,
    syntax_fault, validate_syntax, QuantizeArg,
};
use crate::text::{
    all_white, begins_with, contains, decimal, digits_value, is_core_of, law_numerals_differ,
    law_numerals_tell_the_number, law_parts_make_up_the_text, law_replacements_show,
    law_replacing_changes_the_pattern_alone, law_trimming_leaves_the_core,
    law_without_the_pattern_nothing_changes, numeral, occurs_in, parted, replace, split_once,
    substituted, texts, trim, trimmed,
};
use vstd::prelude::*;
use vstd::string::*;

verus! {

/// What a conversion is asked to do.
#[derive(Debug)]
pub struct ConvertOptions {
    pub product: Option<String>,
    pub layer_name_pattern: String,
    pub layer_count: Option<usize>,
    pub min_zoom: u8,
    pub max_zoom: Option<u8>,
    /// First value substituted for `{seq}` in the layer name pattern.
    pub layer_seq_start: usize,
    /// Band renames as `from=to`.
    pub rename: Vec<String>,
    /// One `--quantize` specification per band; see [`crate::quantize`].
    pub quantize: Vec<String>,
    /// Values whose cells are left out of the tile, as `[<band>=]<value>[,...]`.
    pub omit: Vec<String>,
    /// Leave out cells whose value is zero, on every band.
    pub omit_zero: bool,
    /// Drop products whose generating process is an analysis rather than a forecast.
    pub skip_analysis: bool,
    /// Keep only products at least this many minutes ahead of the reference time.
    pub min_lead_time: Option<i64>,
}

impl Default for ConvertOptions {
    /// All layers, numbered from zero, at all zooms, with nothing renamed, quantized or left out.
    fn default() -> (options: ConvertOptions)
        ensures
            options.product is None,
            options.layer_name_pattern@ == "layer_{seq}"@,
            options.layer_count is None,
            options.min_zoom == 0,
            options.max_zoom is None,
            options.layer_seq_start == 0,
            options.rename@.len() == 0,
            options.quantize@.len() == 0,
            options.omit@.len() == 0,
            !options.omit_zero,
            !options.skip_analysis,
            options.min_lead_time is None,
    {
        ConvertOptions {
            product: None,
            layer_name_pattern: "layer_{seq}".to_owned(),
            layer_count: None,
            min_zoom: 0,
            max_zoom: None,
            layer_seq_start: 0,
            rename: Vec::new(),
            quantize: Vec::new(),
            omit: Vec::new(),
            omit_zero: false,
            skip_analysis: false,
            min_lead_time: None,
        }
    }
}

/// The names of so many layers, numbered from a start.
pub open spec fn layer_names(pattern: Seq<char>, start: nat, count: nat) -> Seq<Seq<char>> {
    Seq::new(count, |i: int| substituted(pattern, "{seq}"@, numeral((start + i) as nat)))
}

/// The names of the layers, numbered from `layer_seq_start`.
pub fn build_layer_names(options: &ConvertOptions, count: usize) -> (names: Vec<String>)
    requires
        options.layer_seq_start + count <= usize::MAX,
    ensures
        texts(names@) == layer_names(
            options.layer_name_pattern@,
            options.layer_seq_start as nat,
            count as nat,
        ),
        names@.len() == count,
{
    let start: usize = options.layer_seq_start;
    let mut names: Vec<String> = Vec::new();
    proof {
        reveal_strlit("{seq}");
    }
    for i in 0..count
        invariant
            "{seq}"@.len() == 5,
            start == options.layer_seq_start,
            start + count <= usize::MAX,
            names@.len() == i,
            forall|k: int|
                0 <= k < i ==> (#[trigger] names@[k])@ == substituted(
                    options.layer_name_pattern@,
                    "{seq}"@,
                    numeral((start + k) as nat),
                ),
    {
        let sequence = decimal((start + i) as u64);
        names.push(replace(options.layer_name_pattern.as_str(), "{seq}", sequence.as_str()));
    }
    proof {
        assert(texts(names@) =~= layer_names(
            options.layer_name_pattern@,
            start as nat,
            count as nat,
        ));
    }
    names
}

/// The old and the new name in a `--rename` argument.
pub open spec fn rename_parts(arg: Seq<char>) -> Result<(Seq<char>, Seq<char>), ErrorView> {
    match parted(arg, '=') {
        None => Err(ErrorView::InvalidRename { arg }),
        Some((from, to)) => if trimmed(from).len() == 0 || trimmed(to).len() == 0 {
            Err(ErrorView::InvalidRename { arg })
        } else {
            Ok((trimmed(from), trimmed(to)))
        },
    }
}

/// The old and the new name in a `--rename` argument.
pub fn parse_rename<'a>(arg: &'a str) -> (result: Result<(&'a str, &'a str), Error>)
    ensures
        match result {
            Ok((from, to)) => rename_parts(arg@) == Ok::<(Seq<char>, Seq<char>), ErrorView>(
                (from@, to@),
            ),
            Err(error) => rename_parts(arg@) == Err::<(Seq<char>, Seq<char>), ErrorView>(error@),
        },
{
    match split_once(arg, '=') {
        None => Err(Error::InvalidRename { arg: arg.to_owned() }),
        Some((from, to)) => {
            let from = trim(from);
            let to = trim(to);
            if from.is_empty() || to.is_empty() {
                return Err(Error::InvalidRename { arg: arg.to_owned() });
            }
            Ok((from, to))
        },
    }
}

/// What the first faulty of `n` `--rename` arguments lacks.
pub open spec fn rename_fault(args: Seq<Seq<char>>, n: nat) -> Option<ErrorView>
    decreases n,
{
    if n == 0 {
        None
    } else {
        match rename_fault(args, (n - 1) as nat) {
            Some(error) => Some(error),
            None => match rename_parts(args[n - 1]) {
                Err(error) => Some(error),
                Ok(_) => None,
            },
        }
    }
}

proof fn lemma_rename_fault_stays(args: Seq<Seq<char>>, n: nat, m: nat)
    requires
        n <= m,
        rename_fault(args, n) is Some,
    ensures
        rename_fault(args, m) == rename_fault(args, n),
    decreases m,
{
    if n < m {
        lemma_rename_fault_stays(args, n, (m - 1) as nat);
    }
}

/// The arguments with numbers are those of the options.
pub open spec fn args_match(
    options: ConvertOptions,
    quantize: Seq<QuantizeArg>,
    omit: Seq<OmitArg>,
) -> bool {
    &&& quantize.len() == options.quantize@.len()
    &&& omit.len() == options.omit@.len()
    &&& forall|i: int|
        0 <= i < quantize.len() ==> (#[trigger] quantize[i]).text@ == options.quantize@[i]@
            && quantize[i].well_formed()
    &&& forall|i: int|
        0 <= i < omit.len() ==> (#[trigger] omit[i]).text@ == options.omit@[i]@
            && omit[i].well_formed()
}

/// What is wrong with the options, as far as that shows before the input is read.
pub open spec fn options_fault(
    options: ConvertOptions,
    quantize: Seq<QuantizeArg>,
    omit: Seq<OmitArg>,
) -> Option<ErrorView> {
    let renames = texts(options.rename@);
    if !occurs_in(options.layer_name_pattern@, "{seq}"@) {
        Some(ErrorView::MissingPlaceholder)
    } else if options.layer_count == Some(0usize) {
        Some(ErrorView::NoLayers)
    } else if rename_fault(renames, renames.len()) is Some {
        rename_fault(renames, renames.len())
    } else if syntax_fault(quantize, quantize.len()) is Some {
        syntax_fault(quantize, quantize.len())
    } else {
        omit_syntax_fault(omit, omit.len())
    }
}

/// Checks the options as far as that can be done before the input is read.
///
/// `quantize` and `omit` are the arguments of the options with their numbers read.
pub fn validate_options(
    options: &ConvertOptions,
    quantize: &Vec<QuantizeArg>,
    omit: &Vec<OmitArg>,
) -> (result: Result<(), Error>)
    requires
        args_match(*options, quantize@, omit@),
    ensures
        match result {
            Ok(()) => options_fault(*options, quantize@, omit@) is None,
            Err(error) => options_fault(*options, quantize@, omit@) == Some(error@),
        },
{
    if !contains(options.layer_name_pattern.as_str(), "{seq}") {
        return Err(Error::MissingPlaceholder);
    }
    if let Some(layer_count) = options.layer_count {
        if layer_count == 0 {
            return Err(Error::NoLayers);
        }
    }
    let ghost renames = texts(options.rename@);
    for i in 0..options.rename.len()
        invariant
            renames == texts(options.rename@),
            rename_fault(renames, i as nat) is None,
            occurs_in(options.layer_name_pattern@, "{seq}"@),
            options.layer_count != Some(0usize),
    {
        proof {
            if rename_fault(renames, (i + 1) as nat) is Some {
                lemma_rename_fault_stays(renames, (i + 1) as nat, renames.len());
            }
        }
        match parse_rename(options.rename[i].as_str()) {
            Ok(_) => {},
            Err(error) => return Err(error),
        }
    }
    match validate_syntax(quantize) {
        Ok(()) => {},
        Err(error) => return Err(error),
    }
    validate_omit_syntax(omit)
}

// ---------------------------------------------------------------------------
// Renaming
// ---------------------------------------------------------------------------

/// The names after some renames, and what stopped the renaming if anything did.
pub struct Renaming {
    pub names: Seq<Seq<char>>,
    pub error: Option<ErrorView>,
}

/// The names after one more rename.
pub open spec fn with_rename(names: Seq<Seq<char>>, arg: Seq<char>) -> Renaming {
    match rename_parts(arg) {
        Err(error) => Renaming { names, error: Some(error) },
        Ok((from, to)) => match first_place(names, from) {
            None => Renaming {
                names,
                error: Some(ErrorView::UnknownRename { from, bands: names }),
            },
            Some(place) => if names.contains(to) {
                Renaming { names, error: Some(ErrorView::RenameCollision { to }) }
            } else {
                Renaming { names: names.update(place, to), error: None }
            },
        },
    }
}

/// The names after the first `n` renames, up to the first that fails.
pub open spec fn renamed(names: Seq<Seq<char>>, args: Seq<Seq<char>>, n: nat) -> Renaming
    decreases n,
{
    if n == 0 {
        Renaming { names, error: None }
    } else {
        let before = renamed(names, args, (n - 1) as nat);
        if before.error is Some {
            before
        } else {
            with_rename(before.names, args[n - 1])
        }
    }
}

proof fn lemma_renaming_stopped(names: Seq<Seq<char>>, args: Seq<Seq<char>>, n: nat, m: nat)
    requires
        n <= m,
        renamed(names, args, n).error is Some,
    ensures
        renamed(names, args, m) == renamed(names, args, n),
    decreases m,
{
    if n < m {
        lemma_renaming_stopped(names, args, n, (m - 1) as nat);
    }
}

/// Renaming never makes two bands share a name, and keeps their number.
pub proof fn law_renaming_keeps_names_apart(
    names: Seq<Seq<char>>,
    args: Seq<Seq<char>>,
    n: nat,
)
    requires
        names.no_duplicates(),
    ensures
        renamed(names, args, n).names.no_duplicates(),
        renamed(names, args, n).names.len() == names.len(),
    decreases n,
{
    if n > 0 {
        law_renaming_keeps_names_apart(names, args, (n - 1) as nat);
        let before = renamed(names, args, (n - 1) as nat);
        if before.error is None {
            if let Ok((from, to)) = rename_parts(args[n - 1]) {
                lemma_first_place_within(before.names, from);
                if let Some(place) = first_place(before.names, from) {
                    if !before.names.contains(to) {
                        let after = before.names.update(place, to);
                        assert forall|i: int, j: int|
                            0 <= i < after.len() && 0 <= j < after.len() && i != j implies after[i]
                            != after[j] by {
                            if i != place {
                                assert(before.names.contains(before.names[i]));
                            }
                            if j != place {
                                assert(before.names.contains(before.names[j]));
                            }
                        }
                    }
                }
            }
        }
    }
}

/// Applies renames to a list of band names, up to the first that fails.
pub fn resolve_renames(names: &mut Vec<String>, args: &Vec<String>) -> (result: Result<(), Error>)
    ensures
        texts(final(names)@) == renamed(texts(old(names)@), texts(args@), args@.len()).names,
        match result {
            Ok(()) => renamed(texts(old(names)@), texts(args@), args@.len()).error is None,
            Err(error) => renamed(texts(old(names)@), texts(args@), args@.len()).error == Some(
                error@,
            ),
        },
{
    let ghost start = texts(names@);
    let ghost all = texts(args@);
    for i in 0..args.len()
        invariant
            start == texts(old(names)@),
            all == texts(args@),
            renamed(start, all, i as nat) == (Renaming { names: texts(names@), error: None }),
    {
        proof {
            if renamed(start, all, (i + 1) as nat).error is Some {
                lemma_renaming_stopped(start, all, (i + 1) as nat, all.len());
            }
        }
        let (from, to) = match parse_rename(args[i].as_str()) {
            Ok(parts) => parts,
            Err(error) => return Err(error),
        };
        let place: usize = match find_name(names, from) {
            Some(place) => place,
            None => return Err(
                Error::UnknownRename { from: from.to_owned(), bands: copy_texts(names) },
            ),
        };
        match find_name(names, to) {
            Some(other) => {
                proof {
                    lemma_first_place_within(texts(names@), to@);
                    assert(texts(names@).contains(to@));
                }
                return Err(Error::RenameCollision { to: to.to_owned() });
            },
            None => {
                proof {
                    lemma_first_place_absent(texts(names@), to@);
                }
            },
        }
        let ghost before = names@;
        names.set(place, to.to_owned());
        proof {
            assert(texts(names@) =~= texts(before).update(place as int, to@));
        }
    }
    Ok(())
}

/// No two layers of an archive share a name, as long as the pattern has a place for the number.
pub proof fn law_layer_names_differ(
    pattern: Seq<char>,
    start: nat,
    count: nat,
    i: int,
    j: int,
)
    requires
        occurs_in(pattern, "{seq}"@),
        0 <= i < j < count,
    ensures
        layer_names(pattern, start, count)[i] != layer_names(pattern, start, count)[j],
{
    reveal_strlit("{seq}");
    let (a, b) = ((start + i) as nat, (start + j) as nat);
    if substituted(pattern, "{seq}"@, numeral(a)) == substituted(pattern, "{seq}"@, numeral(b)) {
        law_replacements_show(pattern, "{seq}"@, numeral(a), numeral(b));
        law_numerals_differ(a, b);
    }
}

/// The argument gives a new name for an old one: the two stand before and after the first equals
/// sign, but for white space round them.
pub open spec fn is_rename(arg: Seq<char>, from: Seq<char>, to: Seq<char>) -> bool {
    exists|left: Seq<char>, right: Seq<char>|
        {
            &&& arg == #[trigger] left.push('=') + #[trigger] right.skip(0)
            &&& !left.contains('=')
            &&& is_core_of(from, left)
            &&& is_core_of(to, right)
        }
}

/// An argument is taken for a rename exactly where something other than white space stands both
/// before and after its first equals sign; its names are these, but for white space round them.
pub proof fn law_renames_are_as_written(arg: Seq<char>, left: Seq<char>, right: Seq<char>)
    ensures
        rename_parts(arg) matches Ok((from, to)) ==> is_rename(arg, from, to) && from.len() > 0
            && to.len() > 0,
        !arg.contains('=') ==> rename_parts(arg) is Err,
        arg == left.push('=') + right && !left.contains('=') ==> (rename_parts(arg) is Ok
            <==> !all_white(left) && !all_white(right)),
{
    law_parts_make_up_the_text(arg, '=');
    if let Some((before, after)) = parted(arg, '=') {
        assert(arg[before.len() as int] == '=');
        law_trimming_leaves_the_core(before);
        law_trimming_leaves_the_core(after);
        if rename_parts(arg) is Ok {
            assert(after.skip(0) =~= after);
            assert(arg == before.push('=') + after.skip(0));
        }
        if arg == left.push('=') + right && !left.contains('=') {
            if left.len() < before.len() {
                assert(arg[left.len() as int] == '=');
                assert(before[left.len() as int] == '=');
            } else if before.len() < left.len() {
                assert(arg[before.len() as int] == '=');
                assert(left[before.len() as int] == '=');
            }
            assert(left =~= arg.take(left.len() as int));
            assert(before =~= arg.take(left.len() as int));
            assert(right =~= arg.skip(left.len() as int + 1));
            assert(after =~= arg.skip(left.len() as int + 1));
        }
    }
    if arg == left.push('=') + right {
        assert(arg[left.len() as int] == '=');
    }
}

/// A rename gives the band with the old name the new one and leaves all others as they are. It
/// fails where no band has the old name, or where one has the new name already, and then changes
/// nothing.
pub proof fn law_a_rename_changes_one_name(
    names: Seq<Seq<char>>,
    arg: Seq<char>,
    from: Seq<char>,
    to: Seq<char>,
)
    requires
        names.no_duplicates(),
        rename_parts(arg) == Ok::<(Seq<char>, Seq<char>), ErrorView>((from, to)),
    ensures
        renamed(names, seq![arg], 1).error is None <==> names.contains(from) && !names.contains(to),
        renamed(names, seq![arg], 1).names.len() == names.len(),
        forall|i: int|
            0 <= i < names.len() ==> (#[trigger] renamed(names, seq![arg], 1).names[i]) == (if names[i]
                == from && !names.contains(to) {
                to
            } else {
                names[i]
            }),
        !names.contains(from) ==> renamed(names, seq![arg], 1).error == Some(
            ErrorView::UnknownRename { from, bands: names },
        ),
        names.contains(from) && names.contains(to) ==> renamed(names, seq![arg], 1).error == Some(
            ErrorView::RenameCollision { to },
        ),
{
    let args = seq![arg];
    assert(renamed(names, args, 0) == (Renaming { names, error: None }));
    assert(renamed(names, args, 1) == with_rename(names, arg));
    lemma_first_place_within(names, from);
    match first_place(names, from) {
        Some(place) => {
            assert(names.contains(names[place]));
            assert forall|i: int| 0 <= i < names.len() && names[i] == from implies i == place by {}
        },
        None => {
            lemma_first_place_absent(names, from);
            assert forall|i: int| 0 <= i < names.len() implies names[i] != from by {
                assert(names.contains(names[i]));
            }
        },
    }
}

/// Renames follow one another: those at the end work on the names that those before them leave,
/// and nothing follows the first that fails.
pub proof fn law_renames_follow_one_another(
    names: Seq<Seq<char>>,
    first: Seq<Seq<char>>,
    then: Seq<Seq<char>>,
)
    ensures
        ({
            let before = renamed(names, first, first.len());
            renamed(names, first + then, (first + then).len()) == if before.error is Some {
                before
            } else {
                renamed(before.names, then, then.len())
            }
        }),
{
    lemma_renamed_beginning(names, first, then, first.len());
    lemma_renamed_end(names, first, then, then.len());
}

proof fn lemma_renamed_beginning(
    names: Seq<Seq<char>>,
    first: Seq<Seq<char>>,
    then: Seq<Seq<char>>,
    n: nat,
)
    requires
        n <= first.len(),
    ensures
        renamed(names, first + then, n) == renamed(names, first, n),
    decreases n,
{
    if n > 0 {
        lemma_renamed_beginning(names, first, then, (n - 1) as nat);
    }
}

proof fn lemma_renamed_end(
    names: Seq<Seq<char>>,
    first: Seq<Seq<char>>,
    then: Seq<Seq<char>>,
    n: nat,
)
    requires
        n <= then.len(),
    ensures
        ({
            let before = renamed(names, first, first.len());
            renamed(names, first + then, first.len() + n) == if before.error is Some {
                before
            } else {
                renamed(before.names, then, n)
            }
        }),
    decreases n,
{
    let before = renamed(names, first, first.len());
    lemma_renamed_beginning(names, first, then, first.len());
    if n > 0 {
        lemma_renamed_end(names, first, then, (n - 1) as nat);
        assert((first + then)[first.len() + n - 1] == then[n - 1]);
        assert((first.len() + n - 1) as nat == first.len() + (n - 1) as nat);
    } else {
        assert(first.len() + n == first.len());
        if before.error is None {
            assert(renamed(before.names, then, 0).names == before.names);
        }
    }
}

/// The name of a layer is the pattern with the layer's number, counted from the start, in place of
/// the first `{seq}`; what stands before it stays, and what follows is treated alike.
pub proof fn law_layer_names_hold_the_number(
    before: Seq<char>,
    after: Seq<char>,
    start: nat,
    count: nat,
    i: int,
)
    requires
        0 <= i < count,
        forall|k: int|
            0 <= k < before.len() ==> !begins_with(
                #[trigger] (before + "{seq}"@ + after).skip(k),
                "{seq}"@,
            ),
    ensures
        layer_names(before + "{seq}"@ + after, start, count).len() == count,
        exists|number: Seq<char>|
            {
                &&& digits_value(number) == start + i
                &&& all_digits(number)
                &&& layer_names(before + "{seq}"@ + after, start, count)[i] == before + number
                    + #[trigger] substituted(after, "{seq}"@, number)
            },
        !occurs_in(after, "{seq}"@) ==> layer_names(before + "{seq}"@ + after, start, count)[i]
            == before + numeral((start + i) as nat) + after,
{
    reveal_strlit("{seq}");
    let number = numeral((start + i) as nat);
    law_replacing_changes_the_pattern_alone(before, "{seq}"@, after, number);
    law_numerals_tell_the_number((start + i) as nat);
    if !occurs_in(after, "{seq}"@) {
        law_without_the_pattern_nothing_changes(after, "{seq}"@, number);
    }
    assert(layer_names(before + "{seq}"@ + after, start, count)[i] == before + number
        + substituted(after, "{seq}"@, number));
}

/// All characters are decimal digits.
pub open spec fn all_digits(s: Seq<char>) -> bool {
    forall|i: int| 0 <= i < s.len() ==> '0' <= (#[trigger] s[i]) && s[i] <= '9'
}

/// The argument can be read as a rename.
pub open spec fn is_some_rename(arg: Seq<char>) -> bool {
    exists|left: Seq<char>, right: Seq<char>|
        {
            &&& arg == #[trigger] left.push('=') + #[trigger] right.skip(0)
            &&& !left.contains('=')
            &&& !all_white(left)
            &&& !all_white(right)
        }
}

/// Options are good, as far as the layers and renames go, exactly where the pattern has a place for
/// the number, some layer is wanted, and every rename can be read.
pub proof fn law_good_options_pass(
    options: ConvertOptions,
    quantize: Seq<QuantizeArg>,
    omit: Seq<OmitArg>,
)
    ensures
        options_fault(options, quantize, omit) is None <==> {
            &&& occurs_in(options.layer_name_pattern@, "{seq}"@)
            &&& options.layer_count != Some(0usize)
            &&& forall|i: int|
                0 <= i < options.rename@.len() ==> is_some_rename((#[trigger] options.rename@[i])@)
            &&& syntax_fault(quantize, quantize.len()) is None
            &&& omit_syntax_fault(omit, omit.len()) is None
        },
{
    let renames = texts(options.rename@);
    lemma_rename_fault(renames, renames.len());
    assert forall|i: int| 0 <= i < renames.len() implies renames[i]
        == (#[trigger] options.rename@[i])@ by {}
    if rename_fault(renames, renames.len()) is Some {
        let i = choose|i: int| 0 <= i < renames.len() && !is_some_rename(#[trigger] renames[i]);
        assert(!is_some_rename(options.rename@[i]@));
    }
}

proof fn lemma_rename_fault(args: Seq<Seq<char>>, n: nat)
    requires
        n <= args.len(),
    ensures
        match rename_fault(args, n) {
            None => forall|i: int| 0 <= i < n ==> is_some_rename(#[trigger] args[i]),
            Some(_) => exists|i: int| 0 <= i < n && !is_some_rename(#[trigger] args[i]),
        },
    decreases n,
{
    if n > 0 {
        lemma_rename_fault(args, (n - 1) as nat);
        let arg = args[n - 1];
        law_parts_make_up_the_text(arg, '=');
        if let Some((before, after)) = parted(arg, '=') {
            law_renames_are_as_written(arg, before, after);
            if rename_parts(arg) is Ok {
                assert(after.skip(0) =~= after);
                assert(arg == before.push('=') + after.skip(0));
            }
        }
        if is_some_rename(arg) {
            let (left, right) = choose|left: Seq<char>, right: Seq<char>|
                {
                    &&& arg == #[trigger] left.push('=') + #[trigger] right.skip(0)
                    &&& !left.contains('=')
                    &&& !all_white(left)
                    &&& !all_white(right)
                };
            assert(right.skip(0) =~= right);
            law_renames_are_as_written(arg, left, right);
        }
    }
}

} // verus!
