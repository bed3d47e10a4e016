use grib2pmtiles::archive::{
    apply_quantization, apply_renames, combined_bounds, ensure_compatible_products, plan_archive,
    resolve_max_zoom, select_layers, Readings,
};
use grib2pmtiles::error::Error;
use grib2pmtiles::header::normalize_empty_leaf_offset;
use grib2pmtiles::hilbert::xy_to_hilbert;
use grib2pmtiles::metadata::generate_metadata;
use grib2pmtiles::model::{
    Aggregation, Band, BandSpec, BaseTile, CompactOptI32, LngLatGrid, PreparedProduct, TilesetSpec,
};
use grib2pmtiles::number::Number;
use grib2pmtiles::omit::{OmitArg, OmitEntry};
use grib2pmtiles::options::{
    build_layer_names, parse_rename, resolve_renames, validate_options, ConvertOptions,
};
use grib2pmtiles::products::{GeneratingProcessType, GpvProductIdentifier, ProductKind};
use grib2pmtiles::pyramid::{has_source_data, tiles_with_data};
use grib2pmtiles::quantize::{QuantizeArg, QuantizeEntry, Reading};
use grib2pmtiles::select::{lead_time, resolve_product_selector, select_products};
use grib2pmtiles::text::sorted_distinct;

fn number(value: f64) -> Number {
    Number { bits: value.to_bits() }
}

fn message(error: &Error) -> String {
    assert!(error.numbers().is_empty());
    error.message(&Vec::new())
}

fn validate(options: &ConvertOptions) -> Result<(), Error> {
    validate_options(options, &Vec::new(), &Vec::new())
}

#[test]
fn layer_pattern_is_zero_based() {
    let options = ConvertOptions {
        layer_name_pattern: "rain250m_{seq}".into(),
        layer_count: Some(12),
        ..Default::default()
    };
    validate(&options).unwrap();
    let names = build_layer_names(&options, 12);

    assert_eq!(names.first().unwrap(), "rain250m_0");
    assert_eq!(names.last().unwrap(), "rain250m_11");
}

#[test]
fn layer_seq_start_shifts_the_numbering() {
    let options = ConvertOptions {
        layer_name_pattern: "rain1km6h_{seq}".into(),
        layer_seq_start: 1,
        ..Default::default()
    };
    validate(&options).unwrap();

    let names = build_layer_names(&options, 6);

    assert_eq!(names.first().unwrap(), "rain1km6h_1");
    assert_eq!(names.last().unwrap(), "rain1km6h_6");
    assert_eq!(names.len(), 6);
}

fn names(values: &[&str]) -> Vec<String> {
    values.iter().map(|value| value.to_string()).collect()
}

fn args(values: &[&str]) -> Vec<String> {
    names(values)
}

#[test]
fn rename_rewrites_the_band_name() {
    let mut bands = names(&["value"]);

    resolve_renames(&mut bands, &args(&["value=DN"])).unwrap();

    assert_eq!(bands, names(&["DN"]));
}

#[test]
fn rename_touches_only_the_named_band() {
    let mut bands = names(&["u", "v"]);

    resolve_renames(&mut bands, &args(&["v=northward"])).unwrap();

    assert_eq!(bands, names(&["u", "northward"]));
}

#[test]
fn renames_can_be_chained() {
    let mut bands = names(&["u", "v"]);

    resolve_renames(&mut bands, &args(&["u=eastward", "v=northward"])).unwrap();

    assert_eq!(bands, names(&["eastward", "northward"]));
}

#[test]
fn rename_requires_both_sides() {
    for arg in ["value", "value=", "=DN", ""] {
        let error = message(&parse_rename(arg).unwrap_err());
        assert!(error.contains("<from>=<to>"), "unexpected error for {arg:?}: {error}");
    }
}

#[test]
fn rename_reports_a_band_that_is_not_there() {
    let mut bands = names(&["value"]);

    let error = resolve_renames(&mut bands, &args(&["nope=DN"])).unwrap_err();

    let message = message(&error);
    assert!(message.contains("unknown band"), "unexpected: {message}");
    assert!(message.contains("\"value\""), "unexpected: {message}");
}

#[test]
fn rename_rejects_a_name_already_in_use() {
    let mut bands = names(&["u", "v"]);

    let error = message(&resolve_renames(&mut bands, &args(&["u=v"])).unwrap_err());

    assert!(error.contains("collides"), "unexpected error: {error}");
    assert_eq!(bands, names(&["u", "v"]), "the names must be left alone");
}

#[test]
fn layer_pattern_requires_placeholder() {
    let options = ConvertOptions {
        layer_name_pattern: "rain250m".into(),
        ..Default::default()
    };
    assert!(validate(&options).is_err());
}

fn grid() -> LngLatGrid {
    LngLatGrid {
        lng_0: number(0.0),
        lat_0: number(0.0),
        lng_denom: number(1.0),
        lat_denom: number(1.0),
    }
}

fn named_product(
    path: &str,
    value_kind: &str,
    minutes: i64,
    process: GeneratingProcessType,
) -> PreparedProduct {
    let reference = 1_570_871_100;
    let product_id = GpvProductIdentifier {
        kind: ProductKind {
            data_kind: "hrnowc".to_string(),
            value_kind: value_kind.to_string(),
            base_z: 0,
            grid: grid(),
            aggregation: Aggregation::Max,
            bands: Vec::new(),
        },
        reference_datetime: reference,
        datetime: reference + minutes * 60,
        generating_process: process,
        surface: String::new(),
        ensemble: None,
        variant: None,
        path: path.to_string(),
        kind_path: path.to_string(),
    };
    PreparedProduct {
        spec: TilesetSpec {
            name: path.to_string(),
            base_z: 0,
            grid_spec: grid(),
            aggregation: Aggregation::Max,
            band_specs: Vec::new(),
            quantize: Vec::new(),
            omit: Vec::new(),
            bounds: [number(0.0); 4],
        },
        product_id,
        chunks: Vec::new(),
    }
}

fn product(minutes: i64, process: GeneratingProcessType) -> PreparedProduct {
    named_product("hrnowc/intensity", "intensity", minutes, process)
}

fn offsets(products: &[PreparedProduct]) -> Vec<i64> {
    products.iter().map(lead_time).collect()
}

#[test]
fn the_analysis_leads_the_layers_by_default() {
    let input = vec![
        product(-5, GeneratingProcessType::Analysis),
        product(0, GeneratingProcessType::Forecast),
        product(5, GeneratingProcessType::Forecast),
    ];

    let selected = select_products(input, None, None, false, None).unwrap();

    assert_eq!(offsets(&selected), [-5, 0, 5]);
}

#[test]
fn skip_analysis_drops_the_observed_field() {
    let input = vec![
        product(-5, GeneratingProcessType::Analysis),
        product(0, GeneratingProcessType::Forecast),
        product(5, GeneratingProcessType::Forecast),
    ];

    let selected = select_products(input, None, None, true, None).unwrap();

    assert_eq!(offsets(&selected), [0, 5]);
}

#[test]
fn skip_analysis_runs_before_the_layer_count() {
    let input = vec![
        product(-5, GeneratingProcessType::Analysis),
        product(0, GeneratingProcessType::Forecast),
        product(5, GeneratingProcessType::Forecast),
    ];

    let selected = select_products(input, None, Some(2), true, None).unwrap();

    assert_eq!(offsets(&selected), [0, 5]);
}

#[test]
fn min_lead_time_also_drops_the_step_valid_at_the_reference_time() {
    let input = vec![
        product(-5, GeneratingProcessType::Analysis),
        product(0, GeneratingProcessType::Forecast),
        product(5, GeneratingProcessType::Forecast),
        product(10, GeneratingProcessType::Forecast),
    ];

    let selected = select_products(input, None, None, false, Some(5)).unwrap();

    assert_eq!(offsets(&selected), [5, 10]);
}

#[test]
fn min_lead_time_reports_an_input_with_nothing_far_enough_ahead() {
    let input = vec![product(0, GeneratingProcessType::Forecast)];

    let error = message(&select_products(input, None, None, false, Some(5)).unwrap_err());

    assert!(error.contains("removed every product"), "unexpected error: {error}");
}

#[test]
fn skip_analysis_reports_an_input_with_no_forecast() {
    let input = vec![product(-5, GeneratingProcessType::Analysis)];

    let error = message(&select_products(input, None, None, true, None).unwrap_err());

    assert!(error.contains("removed every product"), "unexpected error: {error}");
}

#[test]
fn single_product_is_selected_implicitly() {
    let available = sorted_distinct(&names(&["hrnowc/intensity"]));

    assert_eq!(resolve_product_selector(&available, None).unwrap(), "hrnowc/intensity");
}

#[test]
fn multiple_products_require_an_explicit_selection() {
    let available = sorted_distinct(&names(&["hrnowc/precip", "hrnowc/intensity"]));

    let error = resolve_product_selector(&available, None).unwrap_err();
    assert_eq!(
        message(&error),
        "input contains multiple products; select one explicitly:\n  --product hrnowc/intensity\n  --product hrnowc/precip"
    );
}

#[test]
fn requested_product_must_be_available() {
    let available = sorted_distinct(&names(&["hrnowc/intensity", "hrnowc/precip"]));

    assert_eq!(
        resolve_product_selector(&available, Some("hrnowc/precip")).unwrap(),
        "hrnowc/precip"
    );
    let error = resolve_product_selector(&available, Some("hrnowc/echotops")).unwrap_err();
    assert!(message(&error).contains("available choices:"));
    assert!(message(&error).contains("--product hrnowc/intensity"));
    assert!(message(&error).contains("--product hrnowc/precip"));
}

#[test]
fn empty_leaf_offset_points_after_tile_data() {
    let mut bytes = vec![0; 80];
    bytes[56..64].copy_from_slice(&100u64.to_le_bytes());
    bytes[64..72].copy_from_slice(&23u64.to_le_bytes());

    normalize_empty_leaf_offset(&mut bytes).unwrap();

    assert_eq!(u64::from_le_bytes(bytes[40..48].try_into().unwrap()), 123);
}

#[test]
fn a_header_that_places_its_leaves_stays() {
    for position in [40, 48] {
        let mut bytes = vec![7; 80];
        bytes[40..56].fill(0);
        bytes[position] = 1;
        let before = bytes.clone();
        normalize_empty_leaf_offset(&mut bytes).unwrap();
        assert_eq!(bytes, before);
    }
}

#[test]
fn large_offsets_are_written_whole() {
    let mut bytes = vec![0; 72];
    bytes[56..64].copy_from_slice(&0x0102_0304_0506_0708u64.to_le_bytes());
    bytes[64..72].copy_from_slice(&0x1010_1010_1010_1010u64.to_le_bytes());
    normalize_empty_leaf_offset(&mut bytes).unwrap();
    assert_eq!(
        u64::from_le_bytes(bytes[40..48].try_into().unwrap()),
        0x1112_1314_1516_1718
    );
}

#[test]
fn headers_without_an_end_of_data_are_reported() {
    let mut short = vec![0; 55];
    let error = normalize_empty_leaf_offset(&mut short).unwrap_err();
    assert_eq!(message(&error), "failed to fill whole buffer");
    let mut short = vec![0; 71];
    assert!(normalize_empty_leaf_offset(&mut short).is_err());
    let mut endless = vec![0xff; 72];
    endless[40..56].fill(0);
    let before = endless.clone();
    let error = normalize_empty_leaf_offset(&mut endless).unwrap_err();
    assert_eq!(message(&error), "PMTiles data range overflows u64");
    assert_eq!(endless, before);
}

#[test]
fn renames_stop_at_the_first_fault() {
    let mut bands = names(&["u", "v"]);
    let error = resolve_renames(&mut bands, &args(&["u=a", "x=b", "v=c"])).unwrap_err();
    assert_eq!(
        message(&error),
        "unknown band \"x\" in --rename; this product has \"a\", \"v\""
    );
    assert_eq!(bands, names(&["a", "v"]));
    assert_eq!(parse_rename(" u = a b ").unwrap(), ("u", "a b"));
    assert_eq!(parse_rename("u=a=b").unwrap(), ("u", "a=b"));
    assert_eq!(
        message(&parse_rename("u= ").unwrap_err()),
        "--rename expects <from>=<to> but found \"u= \""
    );
}

#[test]
fn option_faults_come_in_order() {
    let mut options = ConvertOptions {
        layer_name_pattern: "x".into(),
        layer_count: Some(0),
        rename: args(&["u"]),
        ..Default::default()
    };
    let shown = |options: &ConvertOptions| message(&validate(options).unwrap_err());
    assert_eq!(shown(&options), "layer name pattern must contain the {seq} placeholder");
    options.layer_name_pattern = "a{seq}b{seq}".into();
    assert_eq!(shown(&options), "layer count must be greater than zero");
    options.layer_count = None;
    assert_eq!(shown(&options), "--rename expects <from>=<to> but found \"u\"");
    options.rename.clear();
    validate(&options).unwrap();
    assert_eq!(build_layer_names(&options, 2), ["a0b0", "a1b1"]);

    options.quantize = args(&["1,"]);
    let entry = |bound| QuantizeEntry { bound, output: Reading::NotANumber, raw_bounds: vec![] };
    let quantize = vec![QuantizeArg {
        text: "1,".to_string(),
        entries: vec![entry(Reading::Finite(number(1.0))), entry(Reading::NotANumber)],
    }];
    let error = validate_options(&options, &quantize, &Vec::new()).unwrap_err();
    assert_eq!(
        message(&error),
        "--quantize contains an empty entry; expected <boundary>[:<value>]"
    );
    options.quantize.clear();
    options.omit = args(&["x"]);
    let omit = vec![OmitArg {
        text: "x".to_string(),
        entries: vec![OmitEntry { value: Reading::NotANumber, exact: vec![] }],
    }];
    let error = validate_options(&options, &Vec::new(), &omit).unwrap_err();
    assert_eq!(message(&error), "expected a number but found \"x\"");
}

#[test]
fn selection_faults_are_spelled_out() {
    let (analysis, forecast) = (GeneratingProcessType::Analysis, GeneratingProcessType::Forecast);
    let shown = |result: Result<Vec<PreparedProduct>, Error>| message(&result.unwrap_err());
    assert_eq!(
        shown(select_products(Vec::new(), None, None, false, None)),
        "input contains no convertible value products"
    );
    assert_eq!(
        shown(select_products(vec![product(0, forecast)], Some("x"), None, false, None)),
        "product `x` is not present in the input; available choices:\n  --product hrnowc/intensity"
    );
    assert_eq!(
        shown(select_products(vec![product(4, forecast)], None, None, false, Some(5))),
        "--min-lead-time 5 removed every product of hrnowc/intensity"
    );
    assert_eq!(
        shown(select_products(vec![product(4, analysis)], None, None, true, None)),
        "--skip-analysis removed every product; hrnowc/intensity contains only analyses"
    );
}

#[test]
fn the_layer_count_is_an_upper_limit() {
    let forecast = GeneratingProcessType::Forecast;
    let input = || vec![product(5, forecast), product(0, forecast)];
    for (count, expected) in [(1, vec![0]), (2, vec![0, 5]), (12, vec![0, 5])] {
        let selected = select_products(input(), None, Some(count), false, None).unwrap();
        assert_eq!(offsets(&selected), expected);
    }
}

#[test]
fn layers_are_ordered_by_time_and_then_by_name() {
    let forecast = |path, minutes| {
        named_product(path, "intensity", minutes, GeneratingProcessType::Forecast)
    };
    let mut twin = forecast("b", 5);
    twin.spec.name = "twin".to_string();
    let input = vec![
        forecast("b", 5),
        forecast("c", 0),
        twin,
        forecast("a", 5),
        named_product("z", "", 0, GeneratingProcessType::Forecast),
    ];
    let selected = select_products(input, Some("hrnowc/intensity"), None, false, None).unwrap();
    let found = selected
        .iter()
        .map(|p| (p.product_id.path.as_str(), p.spec.name.as_str()))
        .collect::<Vec<_>>();
    assert_eq!(found, [("c", "c"), ("a", "a"), ("b", "b"), ("b", "twin")]);
}

#[test]
fn a_kind_without_values_is_selected_by_its_first_name() {
    let input = vec![named_product("dojoshisu", "", 0, GeneratingProcessType::Other(3))];
    assert_eq!(input[0].product_id.product_selector(), "hrnowc");
    let selected = select_products(input, Some("hrnowc"), Some(1), true, Some(0)).unwrap();
    assert_eq!(selected.len(), 1);
}

#[test]
fn lead_times_are_whole_minutes() {
    let mut late = product(0, GeneratingProcessType::Forecast);
    late.product_id.datetime += 119;
    assert_eq!(lead_time(&late), 1);
    late.product_id.datetime -= 2 * 119;
    assert_eq!(lead_time(&late), -1);
}

fn chunk(id: u64) -> (u64, BaseTile) {
    let band = Band { values: vec![CompactOptI32::new(Some(1))] };
    (id, BaseTile { point_ids: vec![0], point_powers: vec![0], bands: vec![band] })
}

fn banded(base_z: u8, ids: &[u64], bands: &[&str]) -> PreparedProduct {
    let mut product = product(0, GeneratingProcessType::Forecast);
    product.spec.base_z = base_z;
    product.chunks = ids.iter().map(|id| chunk(*id)).collect();
    product.spec.band_specs = bands
        .iter()
        .map(|name| BandSpec {
            name: name.to_string(),
            reference_value: number(0.0),
            binary_scale: 0,
            decimal_scale: 0,
            max: None,
            min: None,
        })
        .collect();
    product.spec.quantize = bands.iter().map(|_| None).collect();
    product.spec.omit = bands.iter().map(|_| None).collect();
    product
}

#[test]
fn the_pyramid_holds_the_tiles_with_data() {
    let corner = xy_to_hilbert(2, 3, 0);
    let products = vec![banded(2, &[corner], &["u"]), banded(1, &[1], &["u"])];
    let mut tiles = tiles_with_data(&products, 1, 3);
    tiles.sort();
    assert_eq!(
        tiles,
        [
            (1, 0, 1), (1, 1, 0),
            (2, 0, 2), (2, 0, 3), (2, 1, 2), (2, 1, 3), (2, 3, 0),
            (3, 0, 4), (3, 0, 5), (3, 0, 6), (3, 0, 7),
            (3, 1, 4), (3, 1, 5), (3, 1, 6), (3, 1, 7),
            (3, 2, 4), (3, 2, 5), (3, 2, 6), (3, 2, 7),
            (3, 3, 4), (3, 3, 5), (3, 3, 6), (3, 3, 7),
            (3, 6, 0), (3, 6, 1), (3, 7, 0), (3, 7, 1),
        ]
    );
    assert!(has_source_data(&products, (0, 0, 0)));
    assert!(!has_source_data(&products, (1, 0, 0)));
    assert!(tiles_with_data(&vec![banded(2, &[], &[])], 0, 5).is_empty());
}

#[test]
fn chunks_are_found_by_range() {
    let product = banded(4, &[2, 5, 9], &["u"]);
    let found = |begin, end| {
        product.chunks_in_range(begin, end).iter().map(|(id, _)| *id).collect::<Vec<_>>()
    };
    assert_eq!(found(0, 100), [2, 5, 9]);
    assert_eq!(found(3, 9), [5]);
    assert_eq!(found(5, 10), [5, 9]);
    assert!(found(6, 9).is_empty());
    assert!(found(9, 2).is_empty());
    assert!(product.has_chunks_in_range(9, 10));
    assert!(!product.has_chunks_in_range(3, 5));
}

#[test]
fn layers_must_share_a_grid() {
    let a = banded(2, &[], &["u"]);
    let mut b = banded(2, &[], &["u"]);
    b.spec.name = "other".to_string();
    assert!(ensure_compatible_products(&vec![]
        .into_iter()
        .chain([banded(2, &[], &["u"]), banded(2, &[], &["v"])])
        .collect())
    .is_ok());
    b.spec.grid_spec.lat_denom = number(2.0);
    let error = ensure_compatible_products(&vec![a, b]).unwrap_err();
    assert_eq!(
        message(&error),
        "selected products use incompatible grids: hrnowc/intensity and other"
    );
    let zooms = vec![banded(2, &[], &[]), banded(3, &[], &[])];
    assert!(ensure_compatible_products(&zooms).is_err());
}

fn bounded(bounds: [f64; 4]) -> PreparedProduct {
    let mut product = banded(0, &[], &[]);
    product.spec.bounds = bounds.map(number);
    product
}

#[test]
fn bounds_are_joined_and_kept_on_the_world() {
    let plain = |bounds: [Number; 4]| bounds.map(|n| f64::from_bits(n.bits));
    let products = vec![bounded([118.0, 20.0, 150.0, 48.0]), bounded([100.5, -10.0, 149.0, 50.0])];
    assert_eq!(plain(combined_bounds(&products)), [100.5, -10.0, 150.0, 50.0]);
    let wide = vec![bounded([-180.5, -90.25, 359.5, 90.25])];
    assert_eq!(plain(combined_bounds(&wide)), [-180.0, -90.0, 180.0, 90.0]);
}

#[test]
fn the_highest_zoom_comes_from_the_options_or_the_grids() {
    assert_eq!(resolve_max_zoom(2, Some(7), &vec![3]).unwrap(), 7);
    assert_eq!(resolve_max_zoom(2, None, &vec![3, 9, 4]).unwrap(), 9);
    assert_eq!(resolve_max_zoom(2, None, &vec![]).unwrap(), 2);
    let error = resolve_max_zoom(5, None, &vec![3, 4]).unwrap_err();
    assert_eq!(message(&error), "minimum zoom 5 exceeds maximum zoom 4");
}

#[test]
fn renames_reach_every_layer() {
    let mut products = vec![banded(0, &[], &["u", "v"]), banded(0, &[], &["u", "v", "w"])];
    apply_renames(&mut products, &args(&["v=north"])).unwrap();
    let found = |p: &PreparedProduct| {
        p.spec.band_specs.iter().map(|b| b.name.clone()).collect::<Vec<_>>()
    };
    assert_eq!(found(&products[0]), ["u", "north"]);
    assert_eq!(found(&products[1]), ["u", "north", "w"]);
    assert!(apply_renames(&mut products, &args(&["north=u"])).is_err());
    assert_eq!(found(&products[0]), ["u", "north"]);
}

fn quantized(text: &str, bounds: &[f64], bands: usize) -> QuantizeArg {
    let entries = bounds
        .iter()
        .map(|bound| QuantizeEntry {
            bound: Reading::Finite(number(*bound)),
            output: Reading::NotANumber,
            raw_bounds: vec![*bound as i32; bands],
        })
        .collect();
    QuantizeArg { text: text.to_string(), entries }
}

#[test]
fn quantization_reaches_every_layer() {
    let mut products = vec![banded(0, &[], &["u", "v"]), banded(0, &[], &["u", "v"])];
    let quantize = vec![quantized("v=0,5", &[0.0, 5.0], 2)];
    apply_quantization(&mut products, &quantize, &Vec::new(), true, &vec![Some(0), Some(0)])
        .unwrap();
    for product in &products {
        assert!(product.spec.quantize[0].is_none());
        assert_eq!(product.spec.quantize[1].as_ref().unwrap().class_of(7), 1);
        assert!(product.spec.omit[0].as_ref().unwrap().contains(0));
        assert!(product.spec.omit[1].as_ref().unwrap().contains(0));
        assert!(!product.spec.omit[1].as_ref().unwrap().contains(1));
    }
    let wrong = vec![quantized("x=0", &[0.0], 2)];
    let zeros = vec![None, None];
    assert!(apply_quantization(&mut products, &wrong, &Vec::new(), false, &zeros).is_err());
    assert!(products[0].spec.quantize[1].is_some());
}

#[test]
fn metadata_tells_the_layers_and_the_classes() {
    let mut products = vec![banded(0, &[], &["v", "u", "v"]), banded(0, &[], &["w"])];
    let quantize = vec![quantized("u=0,5", &[0.0, 5.0], 3)];
    apply_quantization(&mut products, &quantize, &Vec::new(), false, &vec![None; 3]).unwrap();
    let bounds = [1.0, 2.0, 3.0, 4.0].map(number);
    let metadata = generate_metadata("rain", &products, &names(&["l0", "l1"]), bounds, 1, 9);
    assert_eq!(metadata.name, "rain");
    assert_eq!(metadata.description, "");
    assert_eq!(metadata.format, "pbf");
    assert_eq!(metadata.kind, "overlay");
    assert_eq!(metadata.generator, "grib2pmtiles");
    assert_eq!(metadata.version, "1.0.0");
    assert_eq!((metadata.minzoom, metadata.maxzoom), (1, 9));
    assert_eq!(metadata.bounds, bounds);
    let layers = metadata
        .vector_layers
        .iter()
        .map(|l| (l.id.as_str(), l.minzoom, l.maxzoom, l.fields.join(" ")))
        .collect::<Vec<_>>();
    assert_eq!(
        layers,
        [("l0", 1, 9, "u v".to_string()), ("l1", 1, 9, "w".to_string())]
    );
    assert_eq!(metadata.quantization.len(), 1);
    let note = &metadata.quantization[0];
    assert_eq!(note.band, "u");
    assert_eq!(note.bounds, [number(0.0), number(5.0)]);
    assert_eq!(note.outputs, [number(0.0), number(5.0)]);

    let empty = generate_metadata("", &Vec::new(), &names(&["l0"]), bounds, 0, 0);
    assert!(empty.vector_layers.is_empty() && empty.quantization.is_empty());
}

#[test]
fn an_archive_is_planned_from_products_and_options() {
    let options = ConvertOptions {
        layer_name_pattern: "l{seq}".into(),
        layer_seq_start: 3,
        rename: args(&["u=rain"]),
        max_zoom: Some(6),
        ..Default::default()
    };
    let mut late = banded(0, &[0], &["u"]);
    late.product_id.datetime += 60;
    let (layers, layer_names) =
        select_layers(vec![late, banded(0, &[0], &["u"])], &options).unwrap();
    assert_eq!(layer_names, ["l3", "l4"]);
    assert_eq!(offsets(&layers), [0, 1]);

    let quantize = vec![quantized("0,5", &[0.0, 5.0], 1)];
    let readings = Readings {
        quantize: &quantize,
        omit: &Vec::new(),
        zeros: &vec![Some(0)],
        detail_zooms: &vec![4, 4],
    };
    let plan = plan_archive(layers, layer_names, &options, &readings, "out").unwrap();
    assert_eq!(plan.max_zoom, 6);
    assert_eq!(plan.metadata.quantization[0].band, "rain");
    assert_eq!(plan.metadata.vector_layers[1].id, "l4");
    assert!(plan.layers.iter().all(|layer| layer.spec.quantize[0].is_some()));

    let limited = ConvertOptions { layer_count: Some(3), ..Default::default() };
    let (layers, names) = select_layers(vec![banded(0, &[], &[])], &limited).unwrap();
    assert_eq!((layers.len(), names), (1, vec!["layer_0".to_string()]));
    let mut other = banded(1, &[], &[]);
    other.product_id.datetime += 60;
    let mixed = vec![banded(0, &[], &[]), other];
    assert!(matches!(
        select_layers(mixed, &ConvertOptions::default()),
        Err(Error::IncompatibleGrids { .. })
    ));
}

#[test]
fn only_the_layers_that_are_selected_need_numbers() {
    let forecast = GeneratingProcessType::Forecast;
    let input = || vec![product(0, forecast), product(5, forecast)];
    let one = ConvertOptions {
        layer_seq_start: usize::MAX - 1,
        layer_count: Some(1),
        ..Default::default()
    };
    let (layers, names) = select_layers(input(), &one).unwrap();
    assert_eq!((layers.len(), names), (1, vec![format!("layer_{}", usize::MAX - 1)]));

    let all = ConvertOptions { layer_seq_start: usize::MAX - 1, ..Default::default() };
    let error = select_layers(input(), &all).unwrap_err();
    assert!(matches!(error, Error::LayerNumbersOverflow));
    assert_eq!(message(&error), "layer numbers overflow");
}

#[test]
fn no_two_layers_share_a_name() {
    for pattern in ["{seq}", "1{seq}1", "{seq}{seq}", "{{seq}}", "a{seq}b{seq}"] {
        let options = ConvertOptions {
            layer_name_pattern: pattern.into(),
            layer_seq_start: 8,
            ..Default::default()
        };
        validate(&options).unwrap();
        let names = build_layer_names(&options, 120);
        assert_eq!(sorted_distinct(&names).len(), 120);
    }
}

#[test]
fn renaming_keeps_names_apart() {
    let mut bands = names(&["u", "v", "w"]);
    resolve_renames(&mut bands, &args(&["u=x", "v=u", "x=v"])).unwrap();
    assert_eq!(bands, names(&["v", "u", "w"]));
    assert_eq!(sorted_distinct(&bands).len(), 3);
}

#[test]
fn a_settled_header_stays() {
    let mut bytes = vec![0; 80];
    bytes[64] = 9;
    normalize_empty_leaf_offset(&mut bytes).unwrap();
    let settled = bytes.clone();
    normalize_empty_leaf_offset(&mut bytes).unwrap();
    assert_eq!(bytes, settled);
}
