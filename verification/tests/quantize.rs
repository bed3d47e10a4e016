use grib2pmtiles::error::Error;
use grib2pmtiles::number::Number;
use grib2pmtiles::omit::{
    resolve_omits, validate_omit_syntax, BandOmit, OmitArg, OmitEntry,
};
use grib2pmtiles::quantize::{
    entry_texts, list_entries, no_quantize, resolve, validate_syntax, BandQuantize, QuantizeArg,
    QuantizeEntry, Reading,
};

struct Scale {
    name: String,
    decimal_scale: i32,
}

fn band(name: &str) -> Scale {
    scaled_band(name, 0)
}

fn scaled_band(name: &str, decimal_scale: i32) -> Scale {
    Scale { name: name.to_string(), decimal_scale }
}

fn number(value: f64) -> Number {
    Number { bits: value.to_bits() }
}

fn reading(text: &str) -> Reading {
    match text.parse::<f64>() {
        Err(_) => Reading::NotANumber,
        Ok(value) if !value.is_finite() => Reading::NotFinite,
        Ok(value) => Reading::Finite(number(value)),
    }
}

fn value_of(reading: Reading) -> f64 {
    match reading {
        Reading::Finite(number) => f64::from_bits(number.bits),
        _ => 0.0,
    }
}

fn physical_to_raw(bound: f64, band: &Scale) -> i32 {
    let raw = bound * 10f64.powi(band.decimal_scale);
    let snapped = if (raw - raw.round()).abs() < 1e-6 { raw.round() } else { raw.ceil() };
    snapped.clamp(i32::MIN as f64 + 1.0, i32::MAX as f64) as i32
}

fn physical_to_raw_exact(value: f64, band: &Scale) -> Option<i32> {
    let raw = value * 10f64.powi(band.decimal_scale);
    let rounded = raw.round();
    if (raw - rounded).abs() < 1e-6 && rounded.abs() <= i32::MAX as f64 {
        Some(rounded as i32)
    } else {
        None
    }
}

fn quantize_arg(text: &str, bands: &[Scale]) -> QuantizeArg {
    let entries = list_entries(text)
        .iter()
        .map(|piece| {
            let (bound, output) = entry_texts(piece);
            let bound = reading(bound);
            QuantizeEntry {
                bound,
                output: output.map_or(Reading::NotANumber, reading),
                raw_bounds: bands.iter().map(|b| physical_to_raw(value_of(bound), b)).collect(),
            }
        })
        .collect();
    QuantizeArg { text: text.to_string(), entries }
}

fn omit_arg(text: &str, bands: &[Scale]) -> OmitArg {
    let entries = list_entries(text)
        .iter()
        .map(|piece| {
            let value = reading(piece.trim());
            OmitEntry {
                value,
                exact: bands.iter().map(|b| physical_to_raw_exact(value_of(value), b)).collect(),
            }
        })
        .collect();
    OmitArg { text: text.to_string(), entries }
}

fn names(bands: &[Scale]) -> Vec<String> {
    bands.iter().map(|band| band.name.clone()).collect()
}

fn resolve_all(specs: &[&str], bands: &[Scale]) -> Result<Vec<Option<BandQuantize>>, Error> {
    let args = specs.iter().map(|spec| quantize_arg(spec, bands)).collect();
    resolve(&args, &names(bands))
}

fn resolve_one(spec: &str, band: Scale) -> Result<BandQuantize, Error> {
    Ok(resolve_all(&[spec], &[band])?.pop().flatten().expect("band should be quantized"))
}

fn omits_for(
    spec: Option<&str>,
    omit: &[&str],
    omit_zero: bool,
    bands: &[Scale],
) -> Result<Vec<Option<BandOmit>>, Error> {
    let quantize = match spec {
        Some(spec) => resolve_all(&[spec], bands)?,
        None => no_quantize(bands.len()),
    };
    let args = omit.iter().map(|text| omit_arg(text, bands)).collect();
    let zeros = bands.iter().map(|band| physical_to_raw_exact(0.0, band)).collect();
    resolve_omits(&args, omit_zero, &zeros, &quantize, &names(bands))
}

fn shown(error: &Error) -> String {
    let numbers = error
        .numbers()
        .iter()
        .map(|number| f64::from_bits(number.bits).to_string())
        .collect::<Vec<_>>();
    error.message(&numbers)
}

fn plain(numbers: &[Number]) -> Vec<f64> {
    numbers.iter().map(|number| f64::from_bits(number.bits)).collect()
}

#[test]
fn a_boundary_without_a_replacement_emits_itself() {
    let quantize = resolve_one("1,2,4", band("value")).unwrap();

    assert_eq!(plain(quantize.outputs()), [1.0, 2.0, 4.0]);
    assert!(quantize.integral_outputs());
}

#[test]
fn a_replacement_value_overrides_the_boundary() {
    let quantize = resolve_one("1:0.5,2:1.5,4:3", band("value")).unwrap();

    assert_eq!(plain(quantize.bounds()), [1.0, 2.0, 4.0]);
    assert_eq!(plain(quantize.outputs()), [0.5, 1.5, 3.0]);
    assert!(!quantize.integral_outputs());
}

#[test]
fn classes_cover_every_value_including_the_open_ends() {
    let quantize = resolve_one("1,2,4", band("value")).unwrap();

    assert_eq!(quantize.class_of(i32::MIN + 1), 0);
    assert_eq!(quantize.class_of(0), 0);
    assert_eq!(quantize.class_of(1), 0);
    assert_eq!(quantize.class_of(2), 1);
    assert_eq!(quantize.class_of(3), 1);
    assert_eq!(quantize.class_of(4), 2);
    assert_eq!(quantize.class_of(i32::MAX), 2);
}

#[test]
fn boundaries_are_converted_into_raw_value_space() {
    let quantize = resolve_one("1,2,4.5", scaled_band("value", 1)).unwrap();

    assert_eq!(quantize.class_of(9), 0);
    assert_eq!(quantize.class_of(10), 0);
    assert_eq!(quantize.class_of(19), 0);
    assert_eq!(quantize.class_of(20), 1);
    assert_eq!(quantize.class_of(44), 1);
    assert_eq!(quantize.class_of(45), 2);
}

#[test]
fn boundaries_must_be_strictly_increasing() {
    let error = shown(&resolve_one("1,2,2", band("value")).unwrap_err());

    assert!(error.contains("strictly increasing"), "unexpected error: {error}");
}

#[test]
fn boundaries_finer_than_the_band_resolution_are_rejected() {
    let error = shown(&resolve_one("1.2,1.4", band("value")).unwrap_err());

    assert!(error.contains("finer than the resolution"), "unexpected error: {error}");
}

#[test]
fn a_multi_band_product_requires_a_band_prefix() {
    let bands = [band("u"), band("v")];

    let error = shown(&resolve_all(&["1,2"], &bands).unwrap_err());

    assert!(error.contains("needs a band prefix"), "unexpected error: {error}");
}

#[test]
fn a_band_prefix_selects_the_band_to_quantize() {
    let bands = [band("u"), band("v")];

    let resolved = resolve_all(&["v=1,2"], &bands).unwrap();

    assert!(resolved[0].is_none());
    assert_eq!(plain(resolved[1].as_ref().unwrap().outputs()), [1.0, 2.0]);
}

#[test]
fn an_unknown_band_lists_the_available_ones() {
    let bands = [band("u"), band("v")];

    let message = shown(&resolve_all(&["w=1,2"], &bands).unwrap_err());

    assert!(message.contains("unknown band"), "unexpected: {message}");
    assert!(message.contains("\"u\""), "unexpected: {message}");
}

#[test]
fn a_band_cannot_be_quantized_twice() {
    let bands = [band("u"), band("v")];

    let error = shown(&resolve_all(&["u=1,2", "u=3,4"], &bands).unwrap_err());

    assert!(error.contains("more than once"), "unexpected error: {error}");
}

#[test]
fn omitting_a_class_covers_only_that_class() {
    let omits = omits_for(Some("0:0,1:1,2:2"), &["0"], false, &[band("value")]).unwrap();
    let omit = omits[0].as_ref().unwrap();

    assert!(omit.contains(0));
    assert!(!omit.contains(1));
    assert!(!omit.contains(2));
    assert_eq!(plain(omit.physical()), [0.0]);
}

#[test]
fn nothing_is_omitted_without_the_options() {
    let omits = omits_for(Some("0,1,2"), &[], false, &[band("value")]).unwrap();

    assert!(omits[0].is_none());
}

#[test]
fn several_values_can_be_omitted_at_once() {
    let omits = omits_for(Some("0:0,1:1,2:2"), &["0,2"], false, &[band("value")]).unwrap();
    let omit = omits[0].as_ref().unwrap();

    assert!(omit.contains(0) && omit.contains(2));
    assert!(!omit.contains(1));
}

#[test]
fn omitting_a_value_that_is_not_a_class_is_rejected() {
    let message =
        shown(&omits_for(Some("0:0,1:1"), &["5"], false, &[band("value")]).unwrap_err());

    assert!(message.contains("not one of the classes"), "got: {message}");
    assert!(message.contains("0, 1"), "should list the classes: {message}");
}

#[test]
fn omitting_every_class_is_rejected() {
    let message =
        shown(&omits_for(Some("0:0,1:1"), &["0,1"], false, &[band("value")]).unwrap_err());

    assert!(message.contains("every class"), "got: {message}");
}

#[test]
fn omit_works_without_quantization_by_matching_the_raw_value() {
    let omits = omits_for(None, &["0.7"], false, &[scaled_band("value", 1)]).unwrap();
    let omit = omits[0].as_ref().unwrap();

    assert!(omit.contains(7));
    assert!(!omit.contains(6));
}

#[test]
fn omit_rejects_a_value_between_two_representable_ones() {
    let message = shown(&omits_for(None, &["0.5"], false, &[band("value")]).unwrap_err());

    assert!(message.contains("falls between"), "got: {message}");
}

#[test]
fn omit_zero_applies_to_every_band() {
    let bands = [band("u"), band("v")];

    let omits = omits_for(None, &[], true, &bands).unwrap();

    assert!(omits[0].as_ref().unwrap().contains(0));
    assert!(omits[1].as_ref().unwrap().contains(0));
}

#[test]
fn omit_zero_is_a_no_op_when_no_class_emits_zero() {
    let omits = omits_for(Some("1:1,2:2"), &[], true, &[band("value")]).unwrap();

    assert!(omits[0].is_none());
}

#[test]
fn a_non_numeric_entry_is_rejected() {
    let message = shown(&resolve_one("1,abc", band("value")).unwrap_err());

    assert!(message.contains("expected a number"), "unexpected error: {message}");
}

#[test]
fn quantize_messages_are_spelled_out() {
    let bands = [band("u"), band("v")];
    let messages = [
        (resolve_all(&["u=1,,2"], &bands),
         "--quantize contains an empty entry; expected <boundary>[:<value>]"),
        (resolve_all(&["u=1,x y"], &bands), "expected a number but found \"x y\""),
        (resolve_all(&["u=1:inf"], &bands), "value \"inf\" is not finite"),
        (resolve_all(&["u=1.5,-2"], &bands),
         "--quantize boundaries must be strictly increasing, but -2 follows 1.5"),
        (resolve_all(&["u=1.2,1.4"], &bands),
         "--quantize boundaries are finer than the resolution of band \"u\": two boundaries both map to raw value 2"),
        (resolve_all(&["1,2"], &bands),
         "--quantize needs a band prefix such as --quantize \"u=1,2,4\" because this product has 2 band(s): \"u\", \"v\""),
        (resolve_all(&["1,2"], &[]),
         "--quantize needs a band prefix such as --quantize \"band=1,2,4\" because this product has no bands"),
        (resolve_all(&["w=1"], &bands),
         "unknown band \"w\" in --quantize; this product has 2 band(s): \"u\", \"v\""),
        (resolve_all(&["u=1", "u=2"], &bands), "band \"u\" is quantized more than once"),
    ];
    for (result, expected) in messages {
        assert_eq!(shown(&result.unwrap_err()), expected);
    }
}

#[test]
fn omit_messages_are_spelled_out() {
    let one = [band("value")];
    let two = [band("u"), band("v")];
    let messages = [
        (omits_for(Some("0:0,1:1"), &["5"], false, &one),
         "--omit value 5 is not one of the classes of band \"value\"; it emits 0, 1"),
        (omits_for(None, &["0.5"], false, &one),
         "--omit value 0.5 does not exist in band \"value\": it falls between two representable values"),
        (omits_for(Some("0,1"), &["0", "1"], false, &one),
         "--omit would drop every class of band \"value\""),
        (omits_for(None, &["1"], false, &two),
         "--omit needs a band prefix such as --omit \"u=1,2,4\" because this product has 2 band(s): \"u\", \"v\""),
        (omits_for(None, &["w=1"], false, &two),
         "unknown band \"w\" in --omit; this product has 2 band(s): \"u\", \"v\""),
        (omits_for(None, &["u=,1"], false, &two), "expected a number but found \"\""),
    ];
    for (result, expected) in messages {
        assert_eq!(shown(&result.unwrap_err()), expected);
    }
}

#[test]
fn spaces_round_entries_and_names_do_not_matter() {
    let bands = [band("u"), band("v")];
    let resolved = resolve_all(&[" v = 1 : 10 ,\t2:20 "], &bands).unwrap();

    let quantize = resolved[1].as_ref().unwrap();
    assert_eq!(plain(quantize.bounds()), [1.0, 2.0]);
    assert_eq!(plain(quantize.outputs()), [10.0, 20.0]);
    assert_eq!(quantize.class_count(), 2);
    assert_eq!(f64::from_bits(quantize.output(1).bits), 20.0);
}

#[test]
fn greater_values_never_fall_into_lesser_classes() {
    let quantize = resolve_one("-5,0,3,1000", band("value")).unwrap();

    let classes = (-20..2000).map(|raw| quantize.class_of(raw)).collect::<Vec<_>>();
    assert!(classes.windows(2).all(|pair| pair[0] <= pair[1]));
    for (class, bound) in [-5, 0, 3, 1000].into_iter().enumerate() {
        assert_eq!(quantize.class_of(bound), class as i32);
    }
}

#[test]
fn huge_outputs_are_integers_up_to_the_64_bit_limit() {
    assert!(resolve_one("0:9223372036854775808", band("v")).unwrap().integral_outputs());
    assert!(resolve_one("0:-9223372036854775808", band("v")).unwrap().integral_outputs());
    assert!(!resolve_one("0:18446744073709551616", band("v")).unwrap().integral_outputs());
    assert!(!resolve_one("0:1e-300", band("v")).unwrap().integral_outputs());
    assert!(resolve_one("0:-0", band("v")).unwrap().integral_outputs());
}

#[test]
fn classes_that_share_an_output_are_omitted_together() {
    let omits = omits_for(Some("0:7,1:8,2:7"), &["7"], false, &[band("value")]).unwrap();
    let omit = omits[0].as_ref().unwrap();

    assert!(omit.contains(0) && !omit.contains(1) && omit.contains(2));
    assert_eq!(plain(omit.physical()), [7.0]);
}

#[test]
fn syntax_is_checked_without_bands() {
    let good = vec![quantize_arg("u=1,2:3", &[]), quantize_arg("4", &[])];
    let bad = vec![quantize_arg("u=1,2:3", &[]), quantize_arg("v=2,1", &[])];
    assert!(validate_syntax(&good).is_ok());
    assert!(shown(&validate_syntax(&bad).unwrap_err()).contains("strictly increasing"));

    assert!(validate_omit_syntax(&vec![omit_arg("u=1,2", &[])]).is_ok());
    for text in ["1", " 2 , 3", "value=4", "", "1,", "x=", "nan", "value=inf", "=1"] {
        let resolves = omits_for(None, &[text], false, &[band("value")]).is_ok();
        assert!(!resolves || validate_omit_syntax(&vec![omit_arg(text, &[])]).is_ok());
    }
    let error = validate_omit_syntax(&vec![omit_arg("1", &[]), omit_arg("u=1,nan", &[])]);
    assert_eq!(shown(&error.unwrap_err()), "value \"nan\" is not finite");
}
