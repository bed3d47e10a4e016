use flate2::read::GzDecoder;
use grib2pmtiles::model::{BandSpec, CompactOptI32};
use grib2pmtiles::number::Number;
use grib2pmtiles::output::tiles_to_write;
use grib2pmtiles::tile::mvt::{
    encode_shapes, make_polygons_grouped_by_value, PixelBox, ValueGroup,
};
use grib2pmtiles::tile::points::{Point, Points};
use grib2pmtiles::tile::render::{
    encode_tile, feature_id, render_mvt_layer, BandScale, GeomType, Layer, RenderFault, TagValue,
};
use prost::Message;
use std::io::Read;

fn number(value: f64) -> Number {
    Number { bits: value.to_bits() }
}

fn values(first: Option<i32>, second: Option<i32>) -> [CompactOptI32; 4] {
    let none = CompactOptI32::none();
    [CompactOptI32::new(first), CompactOptI32::new(second), none, none]
}

fn cells(given: &[i32]) -> Points {
    let mut points = Points::default();
    for (i, value) in given.iter().enumerate() {
        let values = values(Some(*value), None);
        points.insert((i as u32, 0), Point { values, counts: [0; 4], power: 0 });
    }
    points
}

fn pixels(x1: i32, x2: i32) -> PixelBox {
    PixelBox { x1, x2, y1: 0, y2: 10, wrapped: None }
}

fn rectangle(x1: i32, x2: i32, y1: i32, y2: i32) -> Vec<(i32, i32)> {
    vec![(x1, y1), (x2, y1), (x2, y2), (x1, y2)]
}

#[test]
fn cells_with_equal_values_share_a_group() {
    let boxes = vec![pixels(0, 10), pixels(10, 20), pixels(20, 30)];
    let groups = make_polygons_grouped_by_value(&cells(&[5, 6, 5]), &boxes);
    let found = groups
        .iter()
        .map(|g| (g.values[0].get().unwrap(), g.rings.clone()))
        .collect::<Vec<_>>();
    assert_eq!(
        found,
        [
            (5, vec![rectangle(0, 10, 0, 10), rectangle(20, 30, 0, 10)]),
            (6, vec![rectangle(10, 20, 0, 10)]),
        ]
    );
}

#[test]
fn polygons_are_clamped_to_the_margin_and_empty_ones_go() {
    let boxes = vec![
        PixelBox { x1: -9000, x2: 9000, y1: -9000, y2: 9000, wrapped: None },
        PixelBox { x1: 5000, x2: 6000, y1: 0, y2: 10, wrapped: None },
        PixelBox { x1: 0, x2: 10, y1: 10, y2: 10, wrapped: None },
    ];
    let groups = make_polygons_grouped_by_value(&cells(&[1, 2, 3]), &boxes);
    assert_eq!(groups.len(), 1);
    assert_eq!(groups[0].rings, [rectangle(-32, 4128, -32, 4128)]);
}

#[test]
fn cells_across_the_edge_of_the_world_are_drawn_twice() {
    let boxes = vec![PixelBox { x1: -5, x2: 5, y1: 0, y2: 10, wrapped: Some((4091, 4101)) }];
    let groups = make_polygons_grouped_by_value(&cells(&[1]), &boxes);
    assert_eq!(groups[0].rings, [rectangle(-5, 5, 0, 10), rectangle(4091, 4101, 0, 10)]);
}

#[test]
fn groups_tell_all_four_bands_apart() {
    let mut points = Points::default();
    for (i, second) in [None, Some(0), Some(-1), Some(0)].into_iter().enumerate() {
        let values = values(Some(1), second);
        points.insert((i as u32, 0), Point { values, counts: [0; 4], power: 0 });
    }
    let groups = make_polygons_grouped_by_value(&points, &vec![pixels(0, 10); 4]);
    let found = groups.iter().map(|g| (g.values[1].get(), g.rings.len())).collect::<Vec<_>>();
    assert_eq!(found, [(None, 1), (Some(0), 2), (Some(-1), 1)]);
}

#[test]
fn shapes_are_written_as_commands() {
    let square = vec![(3, 6), (8, 12), (20, 34)];
    assert_eq!(
        encode_shapes(&vec![vec![square]]).unwrap(),
        [9, 6, 12, 18, 10, 12, 24, 44, 15]
    );
    let two = vec![
        vec![vec![(0, 0), (10, 0), (10, 0), (10, 10), (0, 10)]],
        vec![vec![(11, 11), (20, 11), (20, 20)], vec![]],
    ];
    assert_eq!(
        encode_shapes(&two).unwrap(),
        [
            9, 0, 0, 26, 20, 0, 0, 20, 19, 0, 15, //
            9, 22, 2, 18, 18, 0, 0, 18, 15
        ]
    );
    assert_eq!(encode_shapes(&vec![vec![vec![(1, -1)]]]).unwrap(), [9, 2, 1, 10, 0, 0, 15]);
    assert!(encode_shapes(&Vec::new()).unwrap().is_empty());
    assert!(encode_shapes(&vec![vec![vec![(i32::MAX, 0)]]]).is_none());
}

fn group(first: Option<i32>, second: Option<i32>, rings: Vec<Vec<(i32, i32)>>) -> ValueGroup {
    ValueGroup { values: values(first, second), rings }
}

fn scales() -> Vec<BandScale<'static>> {
    vec![
        BandScale { name: "u", scaling: false, quantize: None },
        BandScale { name: "v", scaling: true, quantize: None },
    ]
}

fn layer() -> Layer {
    let groups = vec![
        group(Some(5), Some(7), vec![rectangle(0, 10, 0, 10), rectangle(10, 20, 0, 10)]),
        group(Some(5), None, vec![rectangle(100, 110, 0, 10)]),
        group(Some(-6), Some(7), vec![rectangle(200, 210, 0, 10)]),
    ];
    let scaled = vec![vec![number(0.0), number(0.7)]; 3];
    render_mvt_layer("rain", 2, &groups, &scales(), &scaled).unwrap().unwrap()
}

#[test]
fn a_layer_shares_names_and_values() {
    let layer = layer();
    assert_eq!((layer.version, layer.extent, layer.name.as_str()), (2, 4096, "rain"));
    assert_eq!(layer.keys, ["u", "v"]);
    assert_eq!(
        layer.values,
        [TagValue::SInt(5), TagValue::Double(number(0.7)), TagValue::SInt(-6)]
    );
    let tags = layer.features.iter().map(|f| f.tags.clone()).collect::<Vec<_>>();
    assert_eq!(tags, [vec![0, 0, 1, 1], vec![0, 0], vec![0, 2, 1, 1]]);
    assert_eq!(layer.features[0].id, 5 | 7 << 32);
}

#[test]
fn neighbouring_cells_become_one_shape() {
    // One ring with four corners: a move, three lines, a close.
    let geometry = &layer().features[0].geometry;
    assert_eq!(geometry.len(), 3 + 1 + 6 + 1);
    assert_eq!((geometry[0], geometry[3], geometry[10]), (9, 26, 15));
    assert_eq!(layer().features[1].geometry.len(), 11);
}

#[test]
fn ids_lay_the_bands_over_one_another() {
    let four = [1, 2, 3, 4].map(|v| CompactOptI32::new(Some(v)));
    assert_eq!(feature_id(&four, 1), 1);
    assert_eq!(feature_id(&four, 2), 1 | 2 << 32);
    assert_eq!(feature_id(&four, 3), 1 | 2 << 32 | 3 << 16);
    assert_eq!(feature_id(&four, 4), 1 | 2 << 32 | 3 << 16 | 4 << 24);
    assert_eq!(feature_id(&values(Some(-1), None), 1), u64::MAX);
    assert_eq!(feature_id(&values(None, Some(1)), 2), 1 << 32);
}

#[test]
fn layers_that_cannot_be_rendered_are_reported() {
    let scaled = vec![vec![number(0.0), number(0.0)]];
    let missing = vec![group(None, None, vec![rectangle(0, 1, 0, 1)])];
    let one = render_mvt_layer("l", 1, &missing, &scales(), &scaled);
    assert!(matches!(one, Err(RenderFault::MissingValue)));
    let two = render_mvt_layer("l", 2, &missing, &scales(), &scaled);
    assert!(two.unwrap().unwrap().features[0].tags.is_empty());
    assert!(render_mvt_layer("l", 1, &Vec::new(), &scales(), &Vec::new()).unwrap().is_none());
}

#[test]
fn a_band_is_scaled_where_any_factor_is_set() {
    let band = |reference: f64, binary_scale, decimal_scale| BandSpec {
        name: "u".to_string(),
        reference_value: number(reference),
        binary_scale,
        decimal_scale,
        max: None,
        min: None,
    };
    assert!(!BandScale::new(&band(0.0, 0, 0), None).scaling);
    assert!(!BandScale::new(&band(-0.0, 0, 0), None).scaling);
    assert!(BandScale::new(&band(0.5, 0, 0), None).scaling);
    assert!(BandScale::new(&band(0.0, 1, 0), None).scaling);
    assert!(BandScale::new(&band(0.0, 0, -1), None).scaling);
}

#[test]
fn tiles_are_protocol_buffers_in_gzip() {
    assert!(encode_tile(Vec::new()).is_none());
    let bytes = encode_tile(vec![layer()]).unwrap();
    let mut message = Vec::new();
    GzDecoder::new(bytes.as_slice()).read_to_end(&mut message).unwrap();
    let tile = tinymvt::vector_tile::Tile::decode(message.as_slice()).unwrap();
    assert_eq!(tile.layers.len(), 1);
    let decoded = &tile.layers[0];
    assert_eq!((decoded.version, decoded.name.as_str()), (2, "rain"));
    assert_eq!(decoded.extent, Some(4096));
    assert_eq!(decoded.keys, ["u", "v"]);
    assert_eq!(decoded.values[0].sint_value, Some(5));
    assert_eq!(decoded.values[1].double_value, Some(0.7));
    assert_eq!(decoded.features[0].id, Some(5 | 7 << 32));
    assert_eq!(decoded.features[0].tags, [0, 0, 1, 1]);
    assert_eq!(decoded.features[0].geometry, layer().features[0].geometry);
    assert!(format!("{:?}", decoded.features[0]).contains("Polygon"));
    assert_eq!(layer().features[0].geom_type, GeomType::Polygon);
}

#[test]
fn the_lists_of_a_layer_hold_what_its_features_use() {
    let scales = [
        BandScale { name: "u", scaling: false, quantize: None },
        BandScale { name: "v", scaling: false, quantize: None },
    ];
    let group = |first, second| ValueGroup {
        values: values(first, second),
        rings: vec![rectangle(0, 10, 0, 10)],
    };
    let groups = vec![group(Some(5), None), group(Some(6), None), group(Some(6), Some(5))];
    let scaled = vec![vec![number(0.0); 2]; 3];
    let layer = render_mvt_layer("l", 2, &groups, &scales.into(), &scaled).unwrap().unwrap();
    assert_eq!(layer.keys, ["u", "v"]);
    assert_eq!(layer.values, [TagValue::SInt(5), TagValue::SInt(6)]);
    let tags = layer.features.iter().map(|f| f.tags.clone()).collect::<Vec<_>>();
    assert_eq!(tags, [vec![0, 0], vec![0, 1], vec![0, 1, 1, 0]]);
    assert!(layer.features.iter().all(|f| f.geom_type == GeomType::Polygon));

    let layer = render_mvt_layer("l", 2, &vec![group(Some(5), None)], &vec![
        BandScale { name: "u", scaling: false, quantize: None },
        BandScale { name: "v", scaling: false, quantize: None },
    ], &vec![vec![number(0.0); 2]]).unwrap().unwrap();
    assert_eq!((layer.keys, layer.values), (vec!["u".to_string()], vec![TagValue::SInt(5)]));
}

#[test]
fn tiles_tell_the_type_of_a_geometry() {
    for geom_type in [GeomType::Point, GeomType::Linestring, GeomType::Polygon] {
        let mut shown = layer();
        shown.features[0].geom_type = geom_type;
        let mut message = Vec::new();
        let bytes = encode_tile(vec![shown]).unwrap();
        GzDecoder::new(bytes.as_slice()).read_to_end(&mut message).unwrap();
        let tile = tinymvt::vector_tile::Tile::decode(message.as_slice()).unwrap();
        assert!(format!("{:?}", tile.layers[0].features[0]).contains(&format!("{geom_type:?}")));
    }
}

#[test]
fn tiles_without_a_layer_are_not_written() {
    let one = encode_tile(vec![layer()]).unwrap();
    let two = encode_tile(vec![layer(), layer()]).unwrap();
    let written = tiles_to_write(vec![
        ((0, 0, 0), vec![None, Some(layer())]),
        ((1, 0, 0), vec![None, None]),
        ((1, 1, 0), vec![Some(layer()), Some(layer())]),
        ((1, 0, 1), Vec::new()),
    ]);
    assert_eq!(written, [((0, 0, 0), one.clone()), ((1, 1, 0), two)]);
    assert_ne!(written[0].1, written[1].1);

    let part = tiles_to_write(vec![((0, 0, 0), vec![None, Some(layer())])]);
    assert_eq!(part, [((0, 0, 0), one)]);
    assert!(tiles_to_write(vec![((1, 0, 0), vec![None, None])]).is_empty());
}
