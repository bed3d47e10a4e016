use grib2pmtiles::geo::LngLat;
use grib2pmtiles::hilbert::xy_to_hilbert;
use grib2pmtiles::model::{
    Aggregation, Band, BandSpec, BaseTile, CompactOptI32, LngLatGrid, PreparedProduct, TilesetSpec,
};
use grib2pmtiles::number::Number;
use grib2pmtiles::products::{GeneratingProcessType, GpvProductIdentifier, ProductKind};
use grib2pmtiles::quantize::{
    entry_texts, list_entries, resolve, BandQuantize, QuantizeArg, QuantizeEntry, Reading,
};
use grib2pmtiles::omit::{resolve_omits, OmitArg, OmitEntry};
use grib2pmtiles::tile::layer::{chunks_under, layer_points, point_groups, Corners, LayerCells};
use grib2pmtiles::tile::points::{
    aggregate_band, merge_point, try_merge_point, Finish, Point, Points,
};
use grib2pmtiles::tile::render::{BandScale, TagValue};
use grib2pmtiles::tile::TileContext;

fn value(value: i32) -> CompactOptI32 {
    CompactOptI32::new(Some(value))
}

fn number(value: f64) -> Number {
    Number { bits: value.to_bits() }
}

/// The attribute of a value of a band without classes, scaled by the given factor.
fn tag(scaling: bool, decimal_scale: f64, value: i32) -> TagValue {
    let band = BandScale { name: "value", scaling, quantize: None };
    band.tag_value(value, number((0.0 + (value as f64) * 1.0) * decimal_scale))
}

fn double(value: f64) -> TagValue {
    TagValue::Double(number(value))
}

fn reading(text: &str) -> Reading {
    match text.parse::<f64>() {
        Ok(value) => Reading::Finite(number(value)),
        Err(_) => Reading::NotANumber,
    }
}

/// The classes that a text gives a band without scales.
fn quantize(text: &str) -> BandQuantize {
    let entries = list_entries(text)
        .iter()
        .map(|entry| {
            let (bound, output) = entry_texts(entry);
            QuantizeEntry {
                bound: reading(bound),
                output: output.map_or(Reading::NotANumber, reading),
                raw_bounds: vec![bound.parse::<f64>().unwrap().ceil() as i32],
            }
        })
        .collect();
    resolve(&vec![QuantizeArg { text: text.to_string(), entries }], &vec!["value".to_string()])
        .unwrap()
        .pop()
        .flatten()
        .unwrap()
}

#[test]
fn scaled_band_emits_double_even_when_the_value_is_integral() {
    assert_eq!(tag(true, 0.1, 10), double(1.0));
    assert_eq!(tag(true, 0.1, 15), double(1.5));
}

#[test]
fn scaled_band_keeps_values_beyond_the_f32_integer_range() {
    assert_eq!(tag(true, 1.0, 33_554_450), double(33_554_450.0));
    assert_eq!(tag(true, 1.0, i32::MAX), double(2_147_483_647.0));
    assert_eq!(tag(true, 1.0, -33_554_450), double(-33_554_450.0));
}

#[test]
fn a_quantized_band_emits_the_class_output_as_one_type() {
    let quantize = quantize("0,1,2");
    let band = BandScale { name: "value", scaling: true, quantize: Some(&quantize) };

    assert_eq!(band.tag_value(0, number(0.0)), TagValue::SInt(0));
    assert_eq!(band.tag_value(1, number(0.1)), TagValue::SInt(1));
    assert_eq!(band.tag_value(2, number(0.2)), TagValue::SInt(2));
}

#[test]
fn a_quantized_band_with_fractional_outputs_stays_double() {
    let quantize = quantize("0:0,1:0.5,2:1.5");
    let band = BandScale { name: "value", scaling: true, quantize: Some(&quantize) };

    assert_eq!(band.tag_value(0, number(0.0)), double(0.0));
    assert_eq!(band.tag_value(1, number(0.1)), double(0.5));
    assert_eq!(band.tag_value(2, number(0.2)), double(1.5));
}

#[test]
fn unscaled_band_emits_sint_on_both_sides_of_zero() {
    assert_eq!(tag(false, 1.0, -3), TagValue::SInt(-3));
    assert_eq!(tag(false, 1.0, 0), TagValue::SInt(0));
    assert_eq!(tag(false, 1.0, 7), TagValue::SInt(7));
}

#[test]
fn rough_avg_aggregates_sum_and_count_in_one_pass() {
    let values = [value(7), CompactOptI32::none(), value(-2), value(5)];

    let (sum, count) = aggregate_band(&values, Aggregation::RoughAvg);

    assert_eq!(sum, value(10));
    assert_eq!(count, 3);
}

#[test]
fn non_average_aggregations_do_not_track_counts() {
    let values = [value(6), CompactOptI32::none(), value(3)];

    for (aggregation, expected) in
        [(Aggregation::Max, 6), (Aggregation::Min, 3), (Aggregation::BitOr, 7)]
    {
        let (aggregated, count) = aggregate_band(&values, aggregation);
        assert_eq!(aggregated, value(expected));
        assert_eq!(count, 0);
    }
}

fn four(a: i32, b: i32, c: i32, d: i32) -> [CompactOptI32; 4] {
    [value(a), value(b), value(c), value(d)]
}

#[test]
fn merge_only_updates_active_bands() {
    let key = (1, 2);
    let mut points = Points::default();
    points.insert(
        key,
        Point { values: four(10, 20, 30, 40), counts: [1, 2, 3, 4], power: 1 },
    );

    merge_point(
        &mut points,
        key,
        Point { values: four(5, 7, 11, 13), counts: [5, 6, 7, 8], power: 2 },
        Aggregation::RoughAvg,
        2,
    );

    let point = &points[&key];
    assert_eq!(point.values, four(15, 27, 30, 40));
    assert_eq!(point.counts, [6, 8, 3, 4]);
    assert_eq!(point.power, 2);
}

#[test]
fn non_average_merge_does_not_update_counts_or_trailing_bands() {
    let key = (1, 2);

    for (aggregation, expected) in [
        (Aggregation::Max, [value(10), value(20)]),
        (Aggregation::Min, [value(5), value(7)]),
        (Aggregation::BitOr, [value(15), value(23)]),
    ] {
        let mut points = Points::default();
        points.insert(
            key,
            Point { values: four(10, 20, 30, 40), counts: [1, 2, 3, 4], power: 1 },
        );

        merge_point(
            &mut points,
            key,
            Point { values: four(5, 7, 11, 13), counts: [5, 6, 7, 8], power: 2 },
            aggregation,
            2,
        );

        let point = &points[&key];
        assert_eq!(&point.values[..2], &expected);
        assert_eq!(&point.values[2..], &[value(30), value(40)]);
        assert_eq!(point.counts, [1, 2, 3, 4]);
        assert_eq!(point.power, 2);
    }
}

#[test]
fn a_new_key_goes_to_the_end_and_missing_values_change_nothing() {
    let none = CompactOptI32::none();
    let mut points = Points::default();
    let point = |values| Point { values, counts: [0; 4], power: 0 };
    merge_point(&mut points, (3, 3), point(four(1, 2, 3, 4)), Aggregation::Max, 4);
    merge_point(&mut points, (0, 0), point([none; 4]), Aggregation::Max, 4);
    merge_point(&mut points, (3, 3), point([none, value(9), none, none]), Aggregation::Max, 4);
    merge_point(&mut points, (0, 0), point([value(-7), none, none, none]), Aggregation::Max, 4);

    let keys = points.keys().copied().collect::<Vec<_>>();
    assert_eq!(keys, [(3, 3), (0, 0)]);
    assert_eq!(points[&(3, 3)].values, four(1, 9, 3, 4));
    assert_eq!(points[&(0, 0)].values, [value(-7), none, none, none]);
}

#[test]
fn sums_beyond_32_bits_are_refused_and_leave_the_cells_alone() {
    let mut points = Points::default();
    let big = Point { values: four(i32::MAX, 0, 0, 0), counts: [1, 1, 1, 1], power: 0 };
    assert!(try_merge_point(&mut points, (0, 0), big, Aggregation::RoughAvg, 1));
    assert!(!try_merge_point(&mut points, (0, 0), big, Aggregation::RoughAvg, 1));
    assert_eq!(points[&(0, 0)], big);
    assert!(try_merge_point(&mut points, (0, 0), big, Aggregation::Max, 1));
}

#[test]
fn gathering_in_parts_gives_the_same_aggregate() {
    let values = [value(4), CompactOptI32::none(), value(-9), value(12), value(12)];
    for aggregation in
        [Aggregation::Max, Aggregation::Min, Aggregation::RoughAvg, Aggregation::BitOr]
    {
        let whole = aggregate_band(&values, aggregation);
        for cut in 0..=values.len() {
            let mut points = Points::default();
            for part in [&values[..cut], &values[cut..]] {
                let (sum, count) = aggregate_band(part, aggregation);
                let none = CompactOptI32::none();
                let point =
                    Point { values: [sum, none, none, none], counts: [count, 0, 0, 0], power: 0 };
                merge_point(&mut points, (0, 0), point, aggregation, 1);
            }
            assert_eq!(points[&(0, 0)].values[0], whole.0);
            assert_eq!(points[&(0, 0)].counts[0], whole.1);
        }
    }
}

#[test]
fn packed_values_are_missing_only_at_the_marker() {
    assert_eq!(CompactOptI32::none().get(), None);
    assert_eq!(value(0).get(), Some(0));
    assert_eq!(CompactOptI32::default().get(), Some(0));
    assert_eq!(value(5).unwrap(), 5);
    assert_eq!(CompactOptI32::none().unwrap_or(3), 3);
    assert_eq!(value(5).map(|v| value(v + 1)), value(6));
    assert_eq!(CompactOptI32::none().map(|v| value(v + 1)), CompactOptI32::none());
    assert!(CompactOptI32::none() < value(i32::MIN + 1));
    assert!(value(2) < value(3));
}

fn identifier(path: &str, base_z: u8, aggregation: Aggregation) -> GpvProductIdentifier {
    GpvProductIdentifier {
        kind: ProductKind {
            data_kind: "test".to_string(),
            value_kind: String::new(),
            base_z,
            grid: grid(),
            aggregation,
            bands: vec!["value".to_string()],
        },
        reference_datetime: 0,
        datetime: 0,
        generating_process: GeneratingProcessType::Forecast,
        surface: String::new(),
        ensemble: None,
        variant: None,
        path: path.to_string(),
        kind_path: path.to_string(),
    }
}

fn grid() -> LngLatGrid {
    LngLatGrid {
        lng_0: number(0.0),
        lat_0: number(0.0),
        lng_denom: number(1.0),
        lat_denom: number(1.0),
    }
}

fn band_spec() -> BandSpec {
    BandSpec {
        name: "value".to_string(),
        reference_value: number(0.0),
        binary_scale: 0,
        decimal_scale: 0,
        max: None,
        min: None,
    }
}

/// A product whose only tile holds the cells of a 2 by 2 square and one cell further off.
fn product(aggregation: Aggregation, values: [i32; 5]) -> PreparedProduct {
    let cells = [(0, 0), (1, 0), (0, 1), (1, 1), (4, 4)];
    let mut points = cells
        .iter()
        .zip(values)
        .map(|((x, y), v)| (xy_to_hilbert(16, *x, *y) as u32, v))
        .collect::<Vec<_>>();
    points.sort();
    PreparedProduct {
        product_id: identifier("test", 0, aggregation),
        spec: TilesetSpec {
            name: "test".to_string(),
            base_z: 0,
            grid_spec: grid(),
            aggregation,
            band_specs: vec![band_spec()],
            quantize: vec![None],
            omit: vec![None],
            bounds: [number(0.0); 4],
        },
        chunks: vec![(
            0,
            BaseTile {
                point_ids: points.iter().map(|(id, _)| *id).collect(),
                point_powers: vec![0; 5],
                bands: vec![Band { values: points.iter().map(|(_, v)| value(*v)).collect() }],
            },
        )],
    }
}

fn corner(lng: f64, lat: f64) -> LngLat {
    LngLat::new(number(lng), number(lat))
}

fn context() -> TileContext {
    TileContext::new(
        (0, 0, 0),
        (corner(-180.0, -85.0), corner(180.0, 85.0)),
        (corner(180.0, -85.0), corner(540.0, 85.0)),
    )
}

fn corners(product: &PreparedProduct, scale: u8) -> Vec<Vec<Corners>> {
    chunks_under(product, (0, 0, 0))
        .iter()
        .map(|(_, tile)| {
            point_groups(tile, scale)
                .iter()
                .map(|group| {
                    let (x, y) = (group.grid_x as f64, group.grid_y as f64);
                    let width = (1u32 << group.power) as f64;
                    (corner(x - 0.5, y + width - 0.5), corner(x + width - 0.5, y - 0.5))
                })
                .collect()
        })
        .collect()
}

fn cells(product: &PreparedProduct, detail: u8) -> LayerCells {
    layer_points(&context(), product, detail, &corners(product, detail))
}

fn values_of(cells: LayerCells) -> Vec<((u32, u32), Option<i32>, u8)> {
    match cells {
        LayerCells::Cells(points) => {
            points.iter().map(|(key, p)| (*key, p.values[0].get(), p.power)).collect()
        }
        LayerCells::Nothing => Vec::new(),
        LayerCells::Overflow => panic!("a sum left 32 bits"),
    }
}

#[test]
fn groups_are_runs_of_cells_of_the_coarser_grid() {
    let product = product(Aggregation::Max, [1, 2, 3, 4, 5]);
    let tile = &product.chunks[0].1;

    let fine = point_groups(tile, 0);
    assert_eq!(fine.len(), 5);
    assert!(fine.iter().all(|group| group.end == group.begin + 1 && group.power == 0));

    let coarse = point_groups(tile, 1);
    let found = coarse
        .iter()
        .map(|g| (g.grid_x, g.grid_y, g.power, g.begin, g.end))
        .collect::<Vec<_>>();
    assert_eq!(found, [(0, 0, 1, 0, 4), (4, 4, 1, 4, 5)]);
}

#[test]
fn cells_of_the_coarser_grid_hold_aggregates() {
    let given = [10, -3, 6, 8, 100];
    for (aggregation, expected) in [
        (Aggregation::Max, 10),
        (Aggregation::Min, -3),
        (Aggregation::RoughAvg, 5),
        (Aggregation::BitOr, 10 | -3 | 6 | 8),
    ] {
        let product = product(aggregation, given);
        let found = values_of(cells(&product, 1));
        assert_eq!(found, [((0, 0), Some(expected), 1), ((4, 4), Some(100), 1)]);
    }
    let negative = product(Aggregation::RoughAvg, [-1, -2, -2, -2, 0]);
    assert_eq!(values_of(cells(&negative, 1))[0].1, Some(-1));
}

#[test]
fn at_full_detail_every_cell_stays() {
    let found = values_of(cells(&product(Aggregation::Max, [1, 2, 3, 4, 5]), 0));
    let mut given = found.iter().map(|(_, value, _)| value.unwrap()).collect::<Vec<_>>();
    given.sort();
    assert_eq!(given, [1, 2, 3, 4, 5]);
}

#[test]
fn cells_out_of_sight_are_left_out() {
    let product = product(Aggregation::Max, [1, 2, 3, 4, 5]);
    let narrow = TileContext::new(
        (0, 0, 0),
        (corner(3.0, 3.0), corner(5.0, 5.0)),
        (corner(363.0, 3.0), corner(365.0, 5.0)),
    );
    let found = layer_points(&narrow, &product, 0, &corners(&product, 0));
    assert_eq!(values_of(found), [((4, 4), Some(5), 0)]);

    let elsewhere = TileContext::new(
        (0, 0, 0),
        (corner(50.0, 50.0), corner(60.0, 60.0)),
        (corner(410.0, 50.0), corner(420.0, 60.0)),
    );
    assert!(matches!(
        layer_points(&elsewhere, &product, 0, &corners(&product, 0)),
        LayerCells::Nothing
    ));
}

#[test]
fn cells_beyond_the_antimeridian_are_seen_one_turn_further() {
    let west = TileContext::new(
        (1, 0, 0),
        (corner(-180.0, 0.0), corner(-170.0, 10.0)),
        (corner(180.0, 0.0), corner(190.0, 10.0)),
    );
    assert!(west.visible((corner(181.0, 5.0), corner(182.0, 4.0))));
    assert!(!west.visible((corner(179.0, 5.0), corner(179.5, 4.0))));
    assert!(!west.visible((corner(179.0, 5.0), corner(180.0, 4.0))));
}

#[test]
fn a_sum_beyond_32_bits_is_reported() {
    let product = product(Aggregation::RoughAvg, [i32::MAX, 1, 0, 0, 0]);
    assert!(matches!(cells(&product, 1), LayerCells::Overflow));
    assert!(!matches!(cells(&product, 0), LayerCells::Overflow));
}

#[test]
fn quantized_cells_carry_classes_and_omitted_ones_go() {
    let mut product = product(Aggregation::Max, [1, 2, 3, 4, 50]);
    product.spec.quantize = vec![Some(quantize("0,10"))];
    assert_eq!(
        values_of(cells(&product, 1)),
        [((0, 0), Some(0), 1), ((4, 4), Some(1), 1)]
    );

    let omit = OmitArg {
        text: "10".to_string(),
        entries: vec![OmitEntry { value: Reading::Finite(number(10.0)), exact: vec![None] }],
    };
    let names = vec!["value".to_string()];
    product.spec.omit =
        resolve_omits(&vec![omit], false, &vec![Some(0)], &product.spec.quantize, &names).unwrap();
    assert_eq!(values_of(cells(&product, 1)), [((0, 0), Some(0), 1)]);

    let zero = resolve_omits(&Vec::new(), true, &vec![Some(0)], &product.spec.quantize, &names);
    product.spec.omit = zero.unwrap();
    assert_eq!(values_of(cells(&product, 1)), [((4, 4), Some(1), 1)]);
}

#[test]
fn finishing_without_options_keeps_cells_without_values() {
    let none = CompactOptI32::none();
    let mut points = Points::default();
    points.insert((0, 0), Point { values: [none; 4], counts: [0; 4], power: 3 });
    let finish = Finish {
        aggregation: Aggregation::Max,
        quantize: &vec![None],
        omit: &vec![None],
        band_count: 1,
    };
    finish.finish_points(&mut points);
    assert_eq!(points.len(), 1);
    assert_eq!(points[&(0, 0)].power, 3);
}

#[test]
fn cells_of_a_coarser_cell_stand_together() {
    let mut ids = Vec::new();
    for x in 0..16 {
        for y in 0..16 {
            ids.push(xy_to_hilbert(16, x, y) as u32);
        }
    }
    ids.sort();
    let tile = BaseTile { point_powers: vec![0; ids.len()], point_ids: ids, bands: Vec::new() };
    for scale in 0..=5u8 {
        let groups = point_groups(&tile, scale);
        let mut keys = groups.iter().map(|g| (g.grid_x, g.grid_y)).collect::<Vec<_>>();
        keys.sort();
        keys.dedup();
        assert_eq!(keys.len(), groups.len());
        assert_eq!(groups.len(), (256usize >> (2 * scale)).max(1));
        assert_eq!(groups.last().unwrap().end, 256);
        assert!(groups.windows(2).all(|pair| pair[0].end == pair[1].begin));
    }
}

#[test]
fn cells_from_several_tiles_come_together() {
    let mut product = product(Aggregation::RoughAvg, [2, 4, 6, 8, 1]);
    let again = product.chunks[0].1.point_ids.clone();
    let values = vec![value(20); again.len()];
    product.chunks.push((
        0,
        BaseTile {
            point_powers: vec![0; again.len()],
            point_ids: again,
            bands: vec![Band { values }],
        },
    ));
    // (2 + 4 + 6 + 8 + 4 * 20) / 8 and (1 + 20) / 2.
    assert_eq!(
        values_of(cells(&product, 1)),
        [((0, 0), Some(12), 1), ((4, 4), Some(10), 1)]
    );
}
