use grib2pmtiles::hilbert::{hilbert_to_xy, xy_to_hilbert};
use grib2pmtiles::tile::zxy_to_chunk_id_range;

#[test]
fn xy_round_trip() {
    for z in 0..=8 {
        let edge = (1u32 << z).saturating_sub(1);
        for (x, y) in [(0, 0), (edge, 0), (0, edge), (edge, edge)] {
            assert_eq!(hilbert_to_xy(z, xy_to_hilbert(z, x, y)), (x, y));
        }
    }
}

#[test]
fn fine_cells_make_the_round_trip() {
    for (x, y) in [(0, 0), (1, 0), (0, 1), (123, 456), (65535, 65535)] {
        let id = xy_to_hilbert(16, x, y);
        assert_eq!(hilbert_to_xy(16, id), (x, y));
    }
}

#[test]
fn the_curve_visits_neighbours() {
    let cells = (0..256).map(|id| hilbert_to_xy(4, id)).collect::<Vec<_>>();
    for pair in cells.windows(2) {
        let ((x1, y1), (x2, y2)) = (pair[0], pair[1]);
        assert_eq!(x1.abs_diff(x2) + y1.abs_diff(y2), 1);
    }
}

#[test]
fn exact_positions() {
    assert_eq!(xy_to_hilbert(0, 0, 0), 0);
    assert_eq!(xy_to_hilbert(1, 0, 0), 0);
    assert_eq!(xy_to_hilbert(1, 0, 1), 1);
    assert_eq!(xy_to_hilbert(1, 1, 1), 2);
    assert_eq!(xy_to_hilbert(1, 1, 0), 3);
    assert_eq!(xy_to_hilbert(2, 1, 0), 1);
    assert_eq!(xy_to_hilbert(2, 0, 1), 3);
}

#[test]
fn finer_curves_refine_coarser_ones() {
    for (x, y) in [(0, 0), (5, 9), (31, 17), (63, 63)] {
        let fine = xy_to_hilbert(6, x, y);
        assert_eq!(fine / 4, xy_to_hilbert(5, x / 2, y / 2));
        assert_eq!(fine / 256, xy_to_hilbert(2, x / 16, y / 16));
    }
}

#[test]
fn ranges_hold_exactly_the_overlapping_base_tiles() {
    let base_z = 4;
    for (z, x, y) in [(0, 0, 0), (2, 1, 3), (3, 7, 0), (4, 9, 12), (6, 40, 33)] {
        let (begin, end) = zxy_to_chunk_id_range(base_z, (z, x, y));
        for bx in 0..16u32 {
            for by in 0..16u32 {
                let id = xy_to_hilbert(base_z, bx, by);
                let overlaps = if z < base_z {
                    bx >> (base_z - z) == x && by >> (base_z - z) == y
                } else {
                    bx == x >> (z - base_z) && by == y >> (z - base_z)
                };
                assert_eq!((begin..end).contains(&id), overlaps);
            }
        }
    }
}

#[test]
fn the_ranges_of_children_lie_in_that_of_their_parent() {
    for (z, x, y) in [(0, 0, 0), (3, 5, 2), (7, 100, 90)] {
        let (begin, end) = zxy_to_chunk_id_range(5, (z, x, y));
        for (dx, dy) in [(0, 0), (1, 0), (0, 1), (1, 1)] {
            let child = zxy_to_chunk_id_range(5, (z + 1, 2 * x + dx, 2 * y + dy));
            assert!(begin <= child.0 && child.1 <= end);
        }
    }
}

#[test]
fn every_position_is_taken_once() {
    let mut cells = (0..64).map(|id| hilbert_to_xy(3, id)).collect::<Vec<_>>();
    cells.sort();
    let square = (0..8).flat_map(|x| (0..8).map(move |y| (x, y))).collect::<Vec<_>>();
    assert_eq!(cells, square);
}
