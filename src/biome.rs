use vstd::prelude::*;

verus! {

pub const OCEAN: u8 = 0;
pub const LAKE: u8 = 1;
pub const TUNDRA: u8 = 2;
pub const TAIGA: u8 = 3;
pub const SWAMP: u8 = 4;
pub const FOREST: u8 = 5;
pub const SAVANNA: u8 = 6;
pub const PLAINS: u8 = 7;
pub const DESERT: u8 = 8;
pub const ALPINE: u8 = 9;

// Order keys of the real thresholds of the decision table.
/// Order key of 0.2.
pub const K_0_20: u32 = 0xBE4C_CCCD;
/// Order key of 0.35.
pub const K_0_35: u32 = 0xBEB3_3333;
/// Order key of 0.4.
pub const K_0_40: u32 = 0xBECC_CCCD;
/// Order key of 0.45.
pub const K_0_45: u32 = 0xBEE6_6666;
/// Order key of 0.55.
pub const K_0_55: u32 = 0xBF0C_CCCD;
/// Order key of 0.6.
pub const K_0_60: u32 = 0xBF19_999A;
/// Order key of 0.65.
pub const K_0_65: u32 = 0xBF26_6666;
/// Order key of 0.7.
pub const K_0_70: u32 = 0xBF33_3333;
/// Order key of 0.75.
pub const K_0_75: u32 = 0xBF40_0000;
/// Order key of 0.82.
pub const K_0_82: u32 = 0xBF51_EB85;

/// The biome of a land cell that is neither lake nor alpine, from its
/// temperature and moisture keys.
pub open spec fn climate_biome(temp: u32, moist: u32) -> u8 {
    if temp < K_0_20 {
        TUNDRA
    } else if temp < K_0_35 {
        if moist > K_0_40 {
            TAIGA
        } else {
            TUNDRA
        }
    } else if temp < K_0_55 {
        if moist > K_0_55 {
            SWAMP
        } else if moist > K_0_35 {
            FOREST
        } else {
            DESERT
        }
    } else if temp < K_0_75 {
        if moist > K_0_65 {
            SWAMP
        } else if moist > K_0_40 {
            FOREST
        } else {
            PLAINS
        }
    } else {
        if moist > K_0_70 {
            SAVANNA
        } else if moist > K_0_45 {
            PLAINS
        } else {
            DESERT
        }
    }
}

/// The biome of a cell from the order keys of its elevation, water,
/// temperature and moisture; `ocean_line` is the key of sea level less 0.02.
/// Ocean, then lake, then alpine take precedence over the climate bands.
pub open spec fn biome_of(elev: u32, water: u32, temp: u32, moist: u32, ocean_line: u32) -> u8 {
    if elev <= ocean_line {
        OCEAN
    } else if water > K_0_60 {
        LAKE
    } else if elev > K_0_82 {
        ALPINE
    } else {
        climate_biome(temp, moist)
    }
}

/// The biome of one cell.
pub fn classify(elev: u32, water: u32, temp: u32, moist: u32, ocean_line: u32) -> (r: u8)
    ensures
        r == biome_of(elev, water, temp, moist, ocean_line),
        r <= ALPINE,
        r == OCEAN <==> elev <= ocean_line,
{
    if elev <= ocean_line {
        return OCEAN;
    }
    if water > K_0_60 {
        return LAKE;
    }
    if elev > K_0_82 {
        return ALPINE;
    }
    if temp < K_0_20 {
        TUNDRA
    } else if temp < K_0_35 {
        if moist > K_0_40 {
            TAIGA
        } else {
            TUNDRA
        }
    } else if temp < K_0_55 {
        if moist > K_0_55 {
            SWAMP
        } else if moist > K_0_35 {
            FOREST
        } else {
            DESERT
        }
    } else if temp < K_0_75 {
        if moist > K_0_65 {
            SWAMP
        } else if moist > K_0_40 {
            FOREST
        } else {
            PLAINS
        }
    } else {
        if moist > K_0_70 {
            SAVANNA
        } else if moist > K_0_45 {
            PLAINS
        } else {
            DESERT
        }
    }
}

/// The biome of every cell, from the per-cell order keys of elevation,
/// water, temperature and moisture.
pub fn classify_biomes(
    elevation: &Vec<u32>,
    water: &Vec<u32>,
    temperature: &Vec<u32>,
    moisture: &Vec<u32>,
    ocean_line: u32,
) -> (r: Vec<u8>)
    requires
        water@.len() == elevation@.len(),
        temperature@.len() == elevation@.len(),
        moisture@.len() == elevation@.len(),
    ensures
        r@.len() == elevation@.len(),
        forall|i: int|
            0 <= i < r@.len() ==> #[trigger] r@[i] == biome_of(
                elevation@[i],
                water@[i],
                temperature@[i],
                moisture@[i],
                ocean_line,
            ),
{
    let mut r: Vec<u8> = Vec::new();
    let mut i: usize = 0;
    while i < elevation.len()
        invariant
            water@.len() == elevation@.len(),
            temperature@.len() == elevation@.len(),
            moisture@.len() == elevation@.len(),
            i <= elevation@.len(),
            r@.len() == i,
            forall|j: int|
                0 <= j < i ==> #[trigger] r@[j] == biome_of(
                    elevation@[j],
                    water@[j],
                    temperature@[j],
                    moisture@[j],
                    ocean_line,
                ),
        decreases elevation@.len() - i,
    {
        let b = classify(elevation[i], water[i], temperature[i], moisture[i], ocean_line);
        r.push(b);
        i = i + 1;
    }
    r
}

/// Every biome code lies between ocean and alpine, and a cell is ocean
/// exactly when its elevation is at or below the ocean line.
pub proof fn lemma_biome_codes(elev: u32, water: u32, temp: u32, moist: u32, ocean_line: u32)
    ensures
        biome_of(elev, water, temp, moist, ocean_line) <= ALPINE,
        biome_of(elev, water, temp, moist, ocean_line) == OCEAN <==> elev <= ocean_line,
{
}

} // verus!
