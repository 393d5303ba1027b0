use terrain::biome::{
    classify, classify_biomes, ALPINE, DESERT, FOREST, LAKE, OCEAN, PLAINS, SAVANNA, SWAMP,
    TAIGA, TUNDRA,
};

fn key(v: f32) -> u32 {
    let b = (v + 0.0).to_bits();
    if b & 0x8000_0000 != 0 {
        !b
    } else {
        b | 0x8000_0000
    }
}

fn land(temp: f32, moist: f32) -> u8 {
    classify(key(0.6), key(0.0), key(temp), key(moist), key(0.5 - 0.02))
}

#[test]
fn overrides_take_precedence() {
    let line = key(0.5 - 0.02);
    assert_eq!(classify(key(0.3), key(1.0), key(0.9), key(0.9), line), OCEAN);
    assert_eq!(classify(key(0.48), key(1.0), key(0.9), key(0.9), line), OCEAN);
    assert_eq!(classify(key(0.49), key(0.7), key(0.9), key(0.9), line), LAKE);
    assert_eq!(classify(key(0.9), key(0.7), key(0.9), key(0.9), line), LAKE);
    assert_eq!(classify(key(0.9), key(0.6), key(0.9), key(0.9), line), ALPINE);
}

#[test]
fn climate_bands() {
    assert_eq!(land(0.1, 0.9), TUNDRA);
    assert_eq!(land(0.3, 0.5), TAIGA);
    assert_eq!(land(0.3, 0.4), TUNDRA);
    assert_eq!(land(0.5, 0.6), SWAMP);
    assert_eq!(land(0.5, 0.4), FOREST);
    assert_eq!(land(0.5, 0.2), DESERT);
    assert_eq!(land(0.6, 0.7), SWAMP);
    assert_eq!(land(0.6, 0.5), FOREST);
    assert_eq!(land(0.6, 0.3), PLAINS);
    assert_eq!(land(0.9, 0.8), SAVANNA);
    assert_eq!(land(0.9, 0.5), PLAINS);
    assert_eq!(land(0.9, 0.1), DESERT);
}

#[test]
fn classify_every_cell() {
    let e = vec![key(0.1), key(0.6), key(0.95)];
    let w = vec![key(1.0), key(0.0), key(0.0)];
    let t = vec![key(0.5), key(0.9), key(0.1)];
    let m = vec![key(0.5), key(0.8), key(0.1)];
    let r = classify_biomes(&e, &w, &t, &m, key(0.5 - 0.02));
    assert_eq!(r, vec![OCEAN, SAVANNA, ALPINE]);
    assert!(r.iter().all(|&b| b <= 9));
}
