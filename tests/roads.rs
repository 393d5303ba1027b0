use terrain::roads::build_roads;

#[test]
fn no_roads_without_two_settlements() {
    assert!(build_roads(&vec![]).is_empty());
    assert!(build_roads(&vec![vec![0]]).is_empty());
}

#[test]
fn nearest_unconnected_first() {
    // Settlements on a line at 0, 10 and 3.
    let d = vec![vec![0, 10, 3], vec![10, 0, 7], vec![3, 7, 0]];
    assert_eq!(build_roads(&d), vec![(0, 2), (2, 1)]);
}

#[test]
fn equal_distances_keep_scan_order() {
    let d = vec![vec![0, 5, 5], vec![5, 0, 5], vec![5, 5, 0]];
    assert_eq!(build_roads(&d), vec![(0, 1), (0, 2)]);
}

#[test]
fn roads_span_all_settlements() {
    let pts: Vec<(i64, i64)> = vec![(0, 0), (50, 8), (13, 90), (70, 70), (5, 40), (99, 1)];
    let n = pts.len();
    let d: Vec<Vec<u32>> = pts
        .iter()
        .map(|a| {
            pts.iter()
                .map(|b| ((a.0 - b.0).pow(2) + (a.1 - b.1).pow(2)) as u32)
                .collect()
        })
        .collect();
    let edges = build_roads(&d);
    assert_eq!(edges.len(), n - 1);
    let mut seen = vec![false; n];
    seen[0] = true;
    for (a, b) in edges {
        assert!(seen[a as usize]);
        assert!(!seen[b as usize]);
        seen[b as usize] = true;
    }
    assert!(seen.iter().all(|&s| s));
}
