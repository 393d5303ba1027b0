use terrain::grid::{cells_within_margin, neighbor};

#[test]
fn neighbors_in_scan_order() {
    // 3 by 3 grid, centre cell 4.
    let got: Vec<Option<usize>> = (0..8).map(|d| neighbor(1, 1, d, 3, 3)).collect();
    assert_eq!(
        got,
        vec![Some(0), Some(1), Some(2), Some(3), Some(5), Some(6), Some(7), Some(8)]
    );
}

#[test]
fn neighbors_off_the_edge_are_skipped() {
    let got: Vec<Option<usize>> = (0..8).map(|d| neighbor(0, 0, d, 3, 2)).collect();
    assert_eq!(got, vec![None, None, None, None, Some(1), None, Some(3), Some(4)]);
    let got: Vec<Option<usize>> = (0..8).map(|d| neighbor(2, 1, d, 3, 2)).collect();
    assert_eq!(got, vec![Some(1), Some(2), None, Some(4), None, None, None, None]);
}

#[test]
fn index_round_trip_on_a_grid() {
    let (w, h) = (5usize, 4usize);
    let field: Vec<u32> = (0..(w * h) as u32).map(|v| v * 3 + 1).collect();
    for y in 0..h {
        for x in 0..w {
            let i = y * w + x;
            assert_eq!(i % w, x);
            assert_eq!(i / w, y);
            assert_eq!(field[i], (i as u32) * 3 + 1);
        }
    }
}

#[test]
fn margin_cells_in_row_major_order() {
    assert_eq!(cells_within_margin(5, 4, 1), vec![6, 7, 8, 11, 12, 13]);
    assert_eq!(cells_within_margin(6, 5, 2), vec![14, 15]);
    assert_eq!(cells_within_margin(3, 3, 0), (0..9).collect::<Vec<usize>>());
}

#[test]
fn four_by_four_grid_has_no_sites_and_no_roads() {
    let sites = cells_within_margin(4, 4, 2);
    assert!(sites.is_empty());
    assert!(terrain::roads::build_roads(&vec![]).is_empty());
    assert!(cells_within_margin(1, 1, 1).is_empty());
}
