use terrain::hydrology::{
    accumulate_flow, build_flow, descending_order, downslope_targets, max_flow, water_classes, Water,
};

#[test]
fn downslope_picks_lowest_lower_neighbour() {
    let keys = vec![5, 4, 3, 6, 2, 1, 7, 8, 0];
    let down = downslope_targets(&keys, 3, 3);
    assert_eq!(down[0], Some(4));
    assert_eq!(down[4], Some(8));
    assert_eq!(down[5], Some(8));
    assert_eq!(down[8], None);
    assert_eq!(down[6], Some(4));
}

#[test]
fn flat_grid_has_only_sinks() {
    let keys = vec![9u32; 12];
    let down = downslope_targets(&keys, 4, 3);
    assert!(down.iter().all(|d| d.is_none()));
}

#[test]
fn equal_lowest_neighbours_take_first_in_scan_order() {
    let keys = vec![3, 5, 3];
    let down = downslope_targets(&keys, 3, 1);
    assert_eq!(down, vec![None, Some(0), None]);
}

#[test]
fn descending_order_is_stable() {
    assert_eq!(descending_order(&vec![3, 1, 3, 2]), vec![0, 2, 3, 1]);
    assert_eq!(descending_order(&vec![1, 2, 3, 4, 5]), vec![4, 3, 2, 1, 0]);
    assert_eq!(descending_order(&vec![7, 7, 7]), vec![0, 1, 2]);
    assert_eq!(descending_order(&vec![]), Vec::<usize>::new());
}

#[test]
fn flow_accumulates_down_a_slope() {
    let keys = vec![4, 3, 2, 1];
    let r = build_flow(&keys, 4, 1);
    assert_eq!(r.downslope, vec![Some(1), Some(2), Some(3), None]);
    assert_eq!(r.order, vec![0, 1, 2, 3]);
    assert_eq!(r.flow, vec![1, 2, 3, 4]);
}

#[test]
fn flow_gathers_into_a_basin() {
    // 3 by 3 bowl draining into the centre.
    let keys = vec![9, 8, 9, 8, 1, 8, 9, 8, 9];
    let r = build_flow(&keys, 3, 3);
    assert_eq!(r.flow[4], 9);
    for i in [0, 1, 2, 3, 5, 6, 7, 8] {
        assert_eq!(r.flow[i], 1);
        assert_eq!(r.downslope[i], Some(4));
    }
}

#[test]
fn every_cell_keeps_its_own_unit_of_flow() {
    let keys: Vec<u32> = (0..30u32).map(|v| (v * 7919) % 31).collect();
    let r = build_flow(&keys, 6, 5);
    assert!(r.flow.iter().all(|&f| f >= 1 && f <= 30));
    let again = accumulate_flow(&keys, &r.downslope, &r.order);
    assert_eq!(again, r.flow);
}

#[test]
fn max_flow_of_a_grid() {
    assert_eq!(max_flow(&vec![]), 0);
    assert_eq!(max_flow(&vec![1, 4, 2, 4, 3]), 4);
    let r = build_flow(&vec![9, 8, 9, 8, 1, 8, 9, 8, 9], 3, 3);
    assert_eq!(max_flow(&r.flow), 9);
}

fn key(v: f32) -> u32 {
    let b = (v + 0.0).to_bits();
    if b & 0x8000_0000 != 0 {
        !b
    } else {
        b | 0x8000_0000
    }
}

#[test]
fn cells_at_or_below_sea_level_are_submerged() {
    let elev = vec![key(0.2), key(0.5), key(0.6), key(0.7), key(0.9)];
    let runoff = vec![key(0.1), key(0.9), key(0.31), key(0.3), key(0.0)];
    let r = water_classes(&elev, key(0.5), &runoff);
    assert_eq!(
        r,
        vec![Water::Submerged, Water::Submerged, Water::Channel, Water::Dry, Water::Dry]
    );
}
