use grib2pmtiles::grib::{
    data_packing, product_template, read_bitmap, typhoon_storm, GribFault, GridDefinition,
    GridSquareMessageReader, Identification, Packing, Placement, Scaling, Template,
};
use grib2pmtiles::model::{Aggregation, LngLatGrid};
use grib2pmtiles::number::Number;
use grib2pmtiles::products::{GeneratingProcessType, GpvProductIdentifier, ProductKind};

fn number(value: f64) -> Number {
    Number { bits: value.to_bits() }
}

fn kind(bands: &[&str]) -> ProductKind {
    ProductKind {
        data_kind: "hrnowc".to_string(),
        value_kind: "intensity".to_string(),
        base_z: 4,
        grid: LngLatGrid {
            lng_0: number(118.0),
            lat_0: number(20.0),
            lng_denom: number(320.0),
            lat_denom: number(480.0),
        },
        aggregation: Aggregation::Max,
        bands: bands.iter().map(|band| band.to_string()).collect(),
    }
}

fn product(datetime: i64) -> GpvProductIdentifier {
    GpvProductIdentifier {
        kind: kind(&["u", "v"]),
        reference_datetime: 1_000,
        datetime,
        generating_process: GeneratingProcessType::Forecast,
        surface: String::new(),
        ensemble: None,
        variant: None,
        path: "hrnowc/intensity/1".to_string(),
        kind_path: "hrnowc/intensity".to_string(),
    }
}

fn identification() -> Identification {
    Identification {
        production_status: 0,
        year: 2019,
        month: 10,
        day: 12,
        hour: 9,
        minute: 5,
        second: 0,
    }
}

fn grid(scanning_mode: u8, n_i: u32, n_j: u32) -> GridDefinition {
    GridDefinition {
        template_number: 0,
        resolution_and_component_flags: 0x30,
        scanning_mode,
        n_i,
        n_j,
        la1: 30,
        lo1: 20,
        la2: 30,
        lo2: 20,
    }
}

fn placement() -> Placement {
    Placement { lng_floor: 0, lat_floor: 0, x: 9, y: 7, width: 2, aligned: true }
}

fn ready(scanning_mode: u8, n_i: u32, n_j: u32) -> GridSquareMessageReader {
    let mut reader = GridSquareMessageReader::new();
    reader.handle_identification(identification()).unwrap();
    reader.handle_grid_definition(grid(scanning_mode, n_i, n_j)).unwrap();
    reader.handle_product_definition(product(2_000), 1);
    reader
}

fn points(reader: &GridSquareMessageReader) -> Vec<(u16, u16, i32)> {
    reader.products[0].1.points.iter().map(|p| (p.x, p.y, p.value)).collect()
}

#[test]
fn read_bitmap_is_msb_first_and_truncates_partial_byte() {
    let bytes = vec![0b1010_0110, 0b1100_0000, 0xff];

    let (bitmap, position) = read_bitmap(&bytes, 10).unwrap();

    assert_eq!(position, 2);
    assert_eq!(
        bitmap.iter().collect::<Vec<_>>(),
        vec![true, false, true, false, false, true, true, false, true, true]
    );
}

#[test]
fn a_bitmap_that_ends_early_is_no_bitmap() {
    assert!(read_bitmap(&vec![0xff], 9).is_none());
    let (bits, taken) = read_bitmap(&vec![0xff], 8).unwrap();
    assert_eq!((bits.len(), taken), (8, 1));
    let (bits, taken) = read_bitmap(&Vec::new(), 0).unwrap();
    assert_eq!((bits.len(), taken), (0, 0));
}

#[test]
fn only_operational_data_is_read() {
    let mut reader = GridSquareMessageReader::new();
    let trial = Identification { production_status: 1, ..identification() };
    assert_eq!(reader.handle_identification(trial), Err(GribFault::NotOperational));
    assert!(reader.ids.is_none());
}

#[test]
fn grids_of_other_shapes_are_refused() {
    let mut reader = GridSquareMessageReader::new();
    let other = GridDefinition { template_number: 20, ..grid(0, 1, 1) };
    assert_eq!(reader.handle_grid_definition(other), Err(GribFault::GridTemplate));
    let other = GridDefinition { resolution_and_component_flags: 0, ..grid(0, 1, 1) };
    assert_eq!(reader.handle_grid_definition(other), Err(GribFault::GridFlags));
    assert_eq!(reader.handle_grid_definition(grid(32, 1, 1)), Err(GribFault::ScanningMode));
    assert!(reader.grid.is_none());
    assert_eq!(reader.handle_grid_definition(grid(64, 1, 1)), Ok(()));
}

#[test]
fn templates_bring_along_what_they_should() {
    let known = [
        (0, Template::Plain),
        (50000, Template::Plain),
        (1, Template::Member),
        (11, Template::MemberOverTime),
        (8, Template::OverTime),
        (50008, Template::OverTime),
        (50009, Template::OverTime),
        (50011, Template::OverTime),
        (50012, Template::OverTime),
        (50031, Template::TyphoonStorm),
    ];
    for (number, template) in known {
        assert_eq!(product_template(number), Ok(template));
    }
    assert_eq!(product_template(2), Err(GribFault::ProductTemplate));
    assert_eq!(data_packing(0), Ok(Packing::Simple));
    assert_eq!(data_packing(3), Ok(Packing::Complex));
    assert_eq!(data_packing(200), Ok(Packing::RunLength));
    assert_eq!(data_packing(40), Err(GribFault::DataTemplate));
}

#[test]
fn times_are_counted_from_the_reference_time() {
    let reader = ready(0, 1, 1);
    let reference = 1_570_871_100;
    assert_eq!(reader.times(0, 5), Ok((reference, reference + 300)));
    assert_eq!(reader.times(1, 6), Ok((reference, reference + 6 * 3600)));
    assert_eq!(reader.times(2, -1), Ok((reference, reference - 86400)));
    assert_eq!(reader.times(3, 1), Err(GribFault::TimeUnit));
    assert_eq!(reader.times(2, 0xffff_ffff), Err(GribFault::TimeRange));
    assert_eq!(GridSquareMessageReader::new().times(0, 0), Err(GribFault::NoIdentification));
}

#[test]
fn the_calendar_knows_leap_years() {
    let mut reader = GridSquareMessageReader::new();
    let moment = |year, month, day| Identification {
        year,
        month,
        day,
        hour: 0,
        minute: 0,
        ..identification()
    };
    for ((year, month, day), expected) in [
        ((1970, 1, 1), 0),
        ((2000, 2, 29), 951_782_400),
        ((2024, 12, 31), 1_735_603_200),
        ((1969, 12, 31), -86_400),
    ] {
        reader.handle_identification(moment(year, month, day)).unwrap();
        assert_eq!(reader.times(0, 0), Ok((expected, expected)));
    }
    for (year, month, day) in [(1900, 2, 29), (2023, 2, 29), (2024, 13, 1), (2024, 4, 31)] {
        reader.handle_identification(moment(year, month, day)).unwrap();
        assert_eq!(reader.times(0, 0), Err(GribFault::InvalidTime));
    }
    reader.handle_identification(Identification { second: 60, ..identification() }).unwrap();
    assert_eq!(reader.times(0, 0), Err(GribFault::InvalidTime));
}

#[test]
fn products_are_kept_apart_and_taken_up_again() {
    let mut reader = ready(0, 1, 1);
    assert_eq!(reader.products.len(), 1);
    let bands = &reader.products[0].1.band_specs;
    assert_eq!(bands.iter().map(|b| b.name.as_str()).collect::<Vec<_>>(), ["u", "v"]);
    assert!(bands.iter().all(|b| b.min.is_none() && b.binary_scale == 0));

    reader.handle_product_definition(product(3_000), 0);
    assert_eq!((reader.products.len(), reader.current, reader.band), (2, Some(1), 0));
    reader.handle_product_definition(product(2_000), 1);
    assert_eq!((reader.products.len(), reader.current, reader.band), (2, Some(0), 1));

    let named = GpvProductIdentifier { variant: Some("TC1".to_string()), ..product(2_000) };
    reader.handle_product_definition(named, 0);
    assert_eq!((reader.products.len(), reader.current), (3, Some(2)));
}

#[test]
fn the_latest_reference_time_of_each_kind_is_noted() {
    let mut reader = GridSquareMessageReader::new();
    let at = |time, kind: &str| GpvProductIdentifier {
        reference_datetime: time,
        kind_path: kind.to_string(),
        ..product(9_000)
    };
    reader.handle_product_definition(at(5, "a"), 0);
    reader.handle_product_definition(at(9, "b"), 0);
    reader.handle_product_definition(at(3, "a"), 0);
    reader.handle_product_definition(at(7, "a"), 0);
    assert_eq!(
        reader.latest_reference_times,
        [("a".to_string(), 7), ("b".to_string(), 9)]
    );
}

#[test]
fn a_band_is_scaled_in_one_way() {
    let mut reader = ready(0, 1, 1);
    let packed = |reference: f64, binary, decimal| Scaling::Packed {
        reference_value: number(reference),
        binary_scale_factor: binary,
        decimal_scale_factor: decimal,
    };
    assert_eq!(reader.handle_data_representation(packed(1.5, 2, 1)), Ok(()));
    let band = &reader.products[0].1.band_specs[1];
    assert_eq!((band.reference_value, band.binary_scale, band.decimal_scale), (number(1.5), 2, 1));
    assert_eq!(reader.products[0].1.band_specs[0].binary_scale, 0);

    assert_eq!(reader.handle_data_representation(packed(1.5, 2, 1)), Ok(()));
    for other in [packed(2.5, 2, 1), packed(1.5, 3, 1), packed(1.5, 2, 2)] {
        assert_eq!(reader.handle_data_representation(other), Err(GribFault::ScaleMismatch));
    }
    let levels = Scaling::Levels { decimal_scale_factor: 2 };
    assert_eq!(reader.handle_data_representation(levels), Err(GribFault::ScaleMismatch));
    let levels = Scaling::Levels { decimal_scale_factor: 1 };
    assert_eq!(reader.handle_data_representation(levels), Ok(()));
    let band = &reader.products[0].1.band_specs[1];
    assert_eq!((band.reference_value, band.binary_scale, band.decimal_scale), (number(0.0), 0, 1));

    assert_eq!(reader.handle_data_representation(packed(f64::NAN, 2, 1)), Ok(()));
    let again = reader.handle_data_representation(packed(f64::NAN, 2, 1));
    assert_eq!(again, Err(GribFault::ScaleMismatch));
}

#[test]
fn scales_need_a_product_and_a_band() {
    let levels = Scaling::Levels { decimal_scale_factor: 2 };
    let mut reader = GridSquareMessageReader::new();
    assert_eq!(reader.handle_data_representation(levels), Err(GribFault::NoProduct));
    reader.handle_product_definition(product(0), 2);
    assert_eq!(reader.handle_data_representation(levels), Err(GribFault::NoBand));
}

#[test]
fn values_fill_the_grid_row_by_row() {
    let mut up = ready(64, 2, 2);
    up.handle_data(&vec![1, 2, i32::MIN, 4], &placement()).unwrap();
    assert_eq!(points(&up), [(8, 6, 1), (10, 6, 2), (10, 8, 4)]);

    let mut down = ready(0, 2, 2);
    down.handle_data(&vec![1, 2, 3, 4], &placement()).unwrap();
    assert_eq!(points(&down), [(8, 6, 1), (10, 6, 2), (8, 4, 3), (10, 4, 4)]);
    let point = down.products[0].1.points[0];
    assert_eq!((point.band_idx, point.point_power, point.point_id), (1, 1, 0));
}

#[test]
fn widths_are_rounded_down_to_a_power_of_two() {
    let mut reader = ready(64, 2, 1);
    let wide = Placement { x: 7, y: 3, width: 3, ..placement() };
    reader.handle_data(&vec![1, 2], &wide).unwrap();
    assert_eq!(points(&reader), [(6, 3, 1), (8, 3, 2)]);
}

#[test]
fn places_wrap_round_at_16_bits() {
    let mut reader = ready(0, 1, 2);
    let low = Placement { x: 0x1_0003, y: 0, width: 1, ..placement() };
    reader.handle_data(&vec![1, 2], &low).unwrap();
    assert_eq!(points(&reader), [(3, 0, 1), (3, 0xffff, 2)]);
}

#[test]
fn a_bitmap_says_which_cells_have_values() {
    let mut reader = ready(64, 3, 1);
    assert_eq!(reader.handle_bitmap(0, &vec![0b1010_0000, 7]), Ok(1));
    reader.handle_data(&vec![5, 6], &placement()).unwrap();
    assert_eq!(points(&reader), [(8, 6, 5), (12, 6, 6)]);

    assert_eq!(reader.handle_bitmap(254, &Vec::new()), Ok(0));
    assert_eq!(reader.handle_data(&vec![5], &placement()), Err(GribFault::TooFewValues));
    assert_eq!(reader.handle_bitmap(255, &Vec::new()), Ok(0));
    assert_eq!(reader.handle_data(&vec![5, 6], &placement()), Err(GribFault::TooFewValues));
    assert_eq!(reader.handle_data(&vec![5, 6, 7], &placement()), Ok(()));

    assert_eq!(reader.handle_bitmap(1, &Vec::new()), Err(GribFault::BitmapIndicator));
    assert_eq!(reader.handle_bitmap(0, &Vec::new()), Err(GribFault::TruncatedBitmap));
    assert_eq!(
        GridSquareMessageReader::new().handle_bitmap(0, &vec![0]),
        Err(GribFault::NoGrid)
    );
}

#[test]
fn the_range_of_a_band_grows() {
    let mut reader = ready(64, 3, 1);
    reader.handle_data(&vec![4, i32::MIN, 9], &placement()).unwrap();
    reader.handle_data(&vec![-2, 5, i32::MIN], &placement()).unwrap();
    let band = &reader.products[0].1.band_specs[1];
    assert_eq!((band.min, band.max), (Some(-2), Some(9)));
    let other = &reader.products[0].1.band_specs[0];
    assert_eq!((other.min, other.max), (None, None));
}

#[test]
fn data_off_its_grid_is_refused() {
    let mut reader = ready(64, 1, 1);
    let before = reader.products[0].1.points.len();
    let cases = [
        (Placement { lng_floor: 21, ..placement() }, GribFault::WestOfGrid),
        (Placement { x: -1, ..placement() }, GribFault::WestOfGrid),
        (Placement { lat_floor: 31, ..placement() }, GribFault::SouthOfGrid),
        (Placement { y: -1, ..placement() }, GribFault::SouthOfGrid),
        (Placement { width: 0, ..placement() }, GribFault::NoWidth),
        (Placement { aligned: false, ..placement() }, GribFault::Misaligned),
    ];
    for (placement, fault) in cases {
        assert_eq!(reader.handle_data(&vec![1], &placement), Err(fault));
    }
    assert_eq!(reader.products[0].1.points.len(), before);
    let mut empty = GridSquareMessageReader::new();
    assert_eq!(empty.handle_data(&vec![1], &placement()), Err(GribFault::NoGrid));
    empty.handle_grid_definition(grid(0, 1, 1)).unwrap();
    assert_eq!(empty.handle_data(&vec![1], &placement()), Err(GribFault::NoProduct));
    empty.handle_product_definition(product(0), 9);
    assert_eq!(empty.handle_data(&vec![1], &placement()), Err(GribFault::NoBand));
}

#[test]
fn typhoons_are_known_by_their_number() {
    let storm = |process| {
        typhoon_storm(
            kind(&["storm"]),
            "typhoon-storm/TC12".to_string(),
            "typhoon-storm".to_string(),
            (100, 200),
            process,
            12,
        )
    };
    let (id, band) = storm(170).unwrap();
    assert_eq!(band, 0);
    assert_eq!(id.variant.as_deref(), Some("TC12"));
    assert_eq!((id.reference_datetime, id.datetime), (100, 200));
    assert_eq!(id.generating_process, GeneratingProcessType::Forecast);
    assert!(matches!(storm(171), Err(GribFault::TyphoonProcess)));
}
