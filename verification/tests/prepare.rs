use grib2pmtiles::hilbert::xy_to_hilbert;
use grib2pmtiles::model::{Aggregation, BandSpec, CompactOptI32, LngLatGrid, PreparedProduct};
use grib2pmtiles::number::Number;
use grib2pmtiles::prepare::{
    group_sites, make_sites, prepare_product, Footprint, Site, SitePlace,
};
use grib2pmtiles::products::{
    GeneratingProcessType, GpvProductIdentifier, PointValue, ProductKind,
};

fn number(value: f64) -> Number {
    Number { bits: value.to_bits() }
}

fn point(x: u16, y: u16, value: i32, band_idx: u8) -> PointValue {
    PointValue { x, y, point_id: 0, value, band_idx, point_power: 1 }
}

fn value(value: i32) -> CompactOptI32 {
    CompactOptI32::new(Some(value))
}

fn identifier(base_z: u8, bands: &[&str]) -> GpvProductIdentifier {
    GpvProductIdentifier {
        kind: ProductKind {
            data_kind: "test".to_string(),
            value_kind: String::new(),
            base_z,
            grid: LngLatGrid {
                lng_0: number(0.0),
                lat_0: number(0.0),
                lng_denom: number(1.0),
                lat_denom: number(1.0),
            },
            aggregation: Aggregation::Min,
            bands: bands.iter().map(|band| band.to_string()).collect(),
        },
        reference_datetime: 0,
        datetime: 0,
        generating_process: GeneratingProcessType::Forecast,
        surface: String::new(),
        ensemble: None,
        variant: None,
        path: "test/path".to_string(),
        kind_path: "test".to_string(),
    }
}

fn place(x1: i32, x2: i32, y1: i32, y2: i32) -> SitePlace {
    SitePlace {
        lng1: number(x1 as f64),
        lng2: number(x2 as f64 + 0.5),
        lat1: number(y2 as f64 + 0.25),
        lat2: number(y1 as f64),
        footprint: Some(Footprint { x1, x2, y1, y2 }),
    }
}

fn sites(count: u16) -> Vec<Site> {
    make_sites((0..count).map(|i| point(i, 0, i as i32, 0)).collect())
}

fn prepare(base_z: u8, sites: &Vec<Site>, places: &Vec<SitePlace>) -> PreparedProduct {
    let bands = vec![BandSpec {
        name: "u".to_string(),
        reference_value: number(0.0),
        binary_scale: 0,
        decimal_scale: 0,
        max: None,
        min: None,
    }];
    prepare_product(identifier(base_z, &["u"]), bands, sites, places)
}

#[test]
fn the_bands_of_a_cell_come_together() {
    let sites = make_sites(vec![
        point(7, 9, 70, 0),
        point(0, 0, 1, 1),
        point(7, 9, 71, 2),
        point(0, 0, -2, 0),
    ]);
    assert_eq!(sites.len(), 2);
    assert_eq!((sites[0].x, sites[0].y, sites[0].point_power), (0, 0, 1));
    assert_eq!(sites[0].values, [value(-2), value(1), value(0), value(0)]);
    assert_eq!(sites[1].point_id as u64, xy_to_hilbert(16, 7, 9));
    assert_eq!(sites[1].values, [value(70), value(0), value(71), value(0)]);
}

#[test]
fn cells_come_in_the_order_of_the_curve() {
    let mut given = Vec::new();
    for x in 0..40u16 {
        for y in 0..40u16 {
            given.push(point(x * 911, y * 577, (x * 40 + y) as i32, 0));
        }
    }
    let sites = make_sites(given);
    assert_eq!(sites.len(), 1600);
    assert!(sites.windows(2).all(|pair| pair[0].point_id < pair[1].point_id));
    let mut values = sites.iter().map(|s| s.values[0].unwrap()).collect::<Vec<_>>();
    values.sort();
    assert_eq!(values, (0..1600).collect::<Vec<_>>());
}

#[test]
fn a_later_value_of_a_band_counts() {
    let sites = group_sites(&vec![point(1, 1, 5, 3), point(1, 1, 6, 3)]);
    assert_eq!(sites[0].values[3], value(6));
}

#[test]
fn sites_go_to_all_tiles_that_they_reach() {
    let sites = sites(3);
    let product = prepare(
        2,
        &sites,
        &vec![place(0, 1, 0, 0), place(1, 1, -3, 1), SitePlace { footprint: None, ..place(9, 9, 9, 9) }],
    );
    let mut expected = vec![
        (xy_to_hilbert(2, 0, 0), vec![sites[0].point_id]),
        (xy_to_hilbert(2, 1, 0), vec![sites[0].point_id, sites[1].point_id]),
        (xy_to_hilbert(2, 1, 1), vec![sites[1].point_id]),
    ];
    expected.sort();
    let found =
        product.chunks.iter().map(|(id, t)| (*id, t.point_ids.clone())).collect::<Vec<_>>();
    assert_eq!(found, expected);
    let first = &product.chunks[0].1;
    assert_eq!(first.bands.len(), 1);
    assert_eq!(first.bands[0].values, [sites[0].values[0]]);
    assert_eq!(first.point_powers, [1]);
}

#[test]
fn columns_come_round_the_world() {
    let sites = sites(1);
    let tiles = |place| {
        prepare(1, &sites, &vec![place])
            .chunks
            .iter()
            .map(|(id, tile)| (*id, tile.point_ids.len()))
            .collect::<Vec<_>>()
    };
    let (left, right) = (xy_to_hilbert(1, 0, 0), xy_to_hilbert(1, 1, 0));
    assert_eq!(tiles(place(-1, 0, 0, 0)), [(left, 1), (right, 1)]);
    assert_eq!(tiles(place(2, 2, 0, 0)), [(left, 1)]);
    assert_eq!(tiles(place(-3, -3, 0, 0)), [(right, 1)]);
    assert_eq!(tiles(place(0, 2, 0, 0)), [(left, 2), (right, 1)]);
    assert!(tiles(place(0, 0, 2, 5)).is_empty());
    assert!(tiles(place(0, -1, 0, 0)).is_empty());
}

#[test]
fn the_product_keeps_its_particulars() {
    let sites = sites(2);
    let product = prepare(3, &sites, &vec![place(1, 2, 3, 4), place(0, 5, 2, 3)]);
    assert_eq!(product.spec.name, "test/path");
    assert_eq!(product.spec.base_z, 3);
    assert_eq!(product.spec.aggregation, Aggregation::Min);
    assert_eq!(product.spec.band_specs[0].name, "u");
    assert!(product.spec.quantize.len() == 1 && product.spec.quantize[0].is_none());
    assert!(product.spec.omit.len() == 1 && product.spec.omit[0].is_none());
    let bounds = product.spec.bounds.map(|n| f64::from_bits(n.bits));
    assert_eq!(bounds, [0.0, 2.0, 5.5, 4.25]);
    assert_eq!(product.product_id.kind_path, "test");
}

#[test]
fn the_cells_of_a_tile_keep_the_order_of_the_curve() {
    let sites = make_sites((0..50u16).map(|i| point(i * 37 % 64, i * 11 % 64, 1, 0)).collect());
    let places = sites.iter().map(|s| place(s.x as i32 % 3, 3, 0, s.y as i32 % 4)).collect();
    for (_, tile) in prepare(2, &sites, &places).chunks {
        assert!(tile.point_ids.windows(2).all(|pair| pair[0] < pair[1]));
    }
}
