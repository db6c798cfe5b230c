use terrain_water::heightmap::{generate, generate_raw, is_valid_width, HeightMap, RAW_HEIGHT_LIMIT};
use terrain_water::rng::RandomSource;
use terrain_water::ONE;

#[test]
fn width_validation_accepts_pow2_plus_one() {
    assert!(is_valid_width(3));
    assert!(is_valid_width(5));
    assert!(is_valid_width(9));
    assert!(is_valid_width(129));
    assert!(is_valid_width(4097));
    assert!(!is_valid_width(0));
    assert!(!is_valid_width(1));
    assert!(!is_valid_width(2));
    assert!(!is_valid_width(4));
    assert!(!is_valid_width(6));
    assert!(!is_valid_width(128));
    assert!(!is_valid_width(130));
    assert!(!is_valid_width(4098));
    assert!(!is_valid_width(8193));
}

#[test]
fn generation_is_deterministic_for_a_seed() {
    let mut s1 = RandomSource::from_seed(42);
    let mut s2 = RandomSource::from_seed(42);
    let a = generate(129, &mut s1);
    let b = generate(129, &mut s2);
    for x in 0..129 {
        for z in 0..129 {
            assert_eq!(a.at(x, z), b.at(x, z));
        }
    }
}

#[test]
fn different_seeds_give_different_terrain() {
    let mut s1 = RandomSource::from_seed(1);
    let mut s2 = RandomSource::from_seed(2);
    let a = generate(33, &mut s1);
    let b = generate(33, &mut s2);
    let mut same = true;
    for x in 0..33 {
        for z in 0..33 {
            if a.at(x, z) != b.at(x, z) {
                same = false;
            }
        }
    }
    assert!(!same);
}

#[test]
fn raw_corners_hold_unit_seed_draws() {
    let mut src = RandomSource::from_seed(7);
    let raw = generate_raw(129, &mut src);
    for &(x, z) in &[(0usize, 0usize), (128, 0), (0, 128), (128, 128)] {
        let h = raw.at(x, z);
        assert!(-ONE <= h && h < ONE, "corner ({x},{z}) out of seed range: {h}");
    }
}

#[test]
fn heights_stay_inside_the_width_envelope() {
    // Width 129 runs six displacement rounds; the scale sequence is
    // 1.0, 1.6, 2.56, 4.096, 6.5536, 10.48576 units (floored in fixed
    // point), and the envelope is one unit plus twice their sum.
    let scales: [i64; 6] = [1_000_000, 1_600_000, 2_560_000, 4_096_000, 6_553_600, 10_485_760];
    let envelope: i64 = ONE + 2 * scales.iter().sum::<i64>();
    assert_eq!(envelope, 53_590_720);
    let mut src = RandomSource::from_seed(99);
    let map = generate(129, &mut src);
    for x in 0..129 {
        for z in 0..129 {
            let h = map.at(x, z);
            assert!(-envelope <= h && h <= envelope);
        }
    }
}

#[test]
fn every_cell_is_generated_and_bounded() {
    let mut src = RandomSource::from_seed(11);
    let map = generate(65, &mut src);
    for x in 0..65 {
        for z in 0..65 {
            let h = map.at(x, z);
            assert!(-RAW_HEIGHT_LIMIT <= h && h <= RAW_HEIGHT_LIMIT);
        }
    }
}

#[test]
fn smoothing_averages_the_neighbourhood() {
    // 3x3 grid, row-major x*3+z: a spike of 90 in the centre, 6 on the
    // edge midpoints, 0 in the corners.
    let hm = HeightMap { width: 3, cells: vec![0, 6, 0, 6, 90, 6, 0, 6, 0] };
    let sm = hm.smoothed();
    // corners: mean of {0, 6, 6, 90} = 25 (floor)
    assert_eq!(sm.at(0, 0), 25);
    assert_eq!(sm.at(0, 2), 25);
    assert_eq!(sm.at(2, 0), 25);
    assert_eq!(sm.at(2, 2), 25);
    // edge midpoints: mean of {6, 90, 0, 0, 6, 6} = 18
    assert_eq!(sm.at(0, 1), 18);
    assert_eq!(sm.at(1, 0), 18);
    assert_eq!(sm.at(1, 2), 18);
    assert_eq!(sm.at(2, 1), 18);
    // centre: mean of all nine = 114 / 9 = 12
    assert_eq!(sm.at(1, 1), 12);
}

#[test]
fn smoothed_cells_stay_in_the_neighbourhood_envelope() {
    let mut src = RandomSource::from_seed(23);
    let raw = generate_raw(33, &mut src);
    let sm = raw.smoothed();
    for x in 0..33usize {
        for z in 0..33usize {
            let mut lo = raw.at(x, z);
            let mut hi = lo;
            for dx in -1i64..=1 {
                for dz in -1i64..=1 {
                    let nx = x as i64 + dx;
                    let nz = z as i64 + dz;
                    if nx >= 0 && nx < 33 && nz >= 0 && nz < 33 {
                        let v = raw.at(nx as usize, nz as usize);
                        if v < lo {
                            lo = v;
                        }
                        if v > hi {
                            hi = v;
                        }
                    }
                }
            }
            let s = sm.at(x, z);
            assert!(lo <= s && s <= hi);
        }
    }
}

#[test]
fn min_and_max_heights_are_reached() {
    let hm = HeightMap { width: 2, cells: vec![5, -3, 12, 0] };
    assert_eq!(hm.min_height(), -3);
    assert_eq!(hm.max_height(), 12);
}
