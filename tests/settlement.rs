use terrain::settlement::{is_site, too_close, top_candidates, SitePicker, MAX_SETTLEMENTS};

fn key(v: f32) -> u32 {
    let b = (v + 0.0).to_bits();
    if b & 0x8000_0000 != 0 {
        !b
    } else {
        b | 0x8000_0000
    }
}

#[test]
fn site_rules() {
    let line = key(0.5 + 0.02);
    assert!(is_site(key(0.6), line, key(0.1), key(0.05), key(0.5)));
    assert!(!is_site(key(0.52), line, key(0.1), key(0.05), key(0.5)));
    assert!(!is_site(key(0.6), line, key(0.25), key(0.05), key(0.5)));
    assert!(is_site(key(0.6), line, key(0.2), key(0.08), key(0.5)));
    assert!(!is_site(key(0.6), line, key(0.1), key(0.09), key(0.5)));
    assert!(!is_site(key(0.6), line, key(0.1), key(0.05), key(0.35)));
}

#[test]
fn spacing_rule() {
    assert!(!too_close(&vec![]));
    assert!(!too_close(&vec![key(120.0), key(500.0)]));
    assert!(too_close(&vec![key(500.0), key(119.5)]));
}

#[test]
fn top_candidates_best_first() {
    assert_eq!(top_candidates(&vec![key(0.4), key(0.9), key(0.4), key(0.7)]), vec![1, 3, 0, 2]);
    let many: Vec<u32> = (0..250u32).map(|v| key(v as f32)).collect();
    let top = top_candidates(&many);
    assert_eq!(top.len(), 200);
    assert_eq!(top[0], 249);
    assert_eq!(top[199], 50);
}

#[test]
fn picker_stops_at_the_limit() {
    let mut p = SitePicker::new();
    let mut ids = Vec::new();
    while p.wants_more() {
        if let Some(id) = p.offer(ids.len() % 2 == 1 && p.examined % 3 == 0) {
            ids.push(id);
        }
    }
    assert_eq!(ids.len() as u32, MAX_SETTLEMENTS);
    assert_eq!(ids, (0..16).collect::<Vec<u32>>());
}

#[test]
fn picker_passes_over_crowded_candidates() {
    let mut p = SitePicker::new();
    assert_eq!(p.offer(true), None);
    assert_eq!(p.offer(false), Some(0));
    assert_eq!(p.offer(true), None);
    assert_eq!(p.offer(false), Some(1));
    assert_eq!(p.examined, 4);
    let mut q = SitePicker::new();
    while q.wants_more() {
        q.offer(true);
    }
    assert_eq!(q.examined, 200);
    assert_eq!(q.accepted, 0);
}
