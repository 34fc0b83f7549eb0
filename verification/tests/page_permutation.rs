use opensqlany::{
    permute_power_of_two_in_place, permute_sector_in_place, PagePermutationError,
    PAGE_PERMUTATION_SECTOR_LEN,
};

#[test]
fn positive_synthetic_vector_matches_the_transcribed_cycle() {
    let mut bytes = [0_u8, 1, 2, 3, 4, 5, 6, 7];
    permute_power_of_two_in_place(&mut bytes, 0, 0, 0x0001_0203).expect("positive");
    assert_eq!(bytes, [8, 24, 16, 24, 16, 8, 24, 16]);
}

#[test]
fn negative_synthetic_vector_uses_its_distinct_seed_branch() {
    let mut bytes = [0_u8, 1, 2, 3, 4, 5, 6, 7];
    permute_power_of_two_in_place(&mut bytes, 0, 0, -0x0001_0203).expect("negative");
    assert_eq!(bytes, [27, 37, 47, 33, 43, 45, 31, 41]);
}

#[test]
fn positive_then_negative_key_round_trips_a_512_byte_sector() {
    let original: [u8; PAGE_PERMUTATION_SECTOR_LEN] =
        core::array::from_fn(|index| (index as u8).wrapping_mul(37).wrapping_add(11));
    let mut bytes = original;
    let key = 0x1234_5678_i32;

    permute_sector_in_place(&mut bytes, 0, 0, key).expect("forward");
    permute_sector_in_place(&mut bytes, 0, 0, -key).expect("reverse");
    assert_eq!(bytes, original);
}

#[test]
fn final_sixteen_bytes_are_preserved_when_tail_is_sixteen() {
    let mut bytes: [u8; PAGE_PERMUTATION_SECTOR_LEN] = core::array::from_fn(|index| index as u8);
    let tail = bytes[496..].to_vec();

    permute_sector_in_place(&mut bytes, 0, 16, 0x1234_5678).expect("sector");
    assert_eq!(&bytes[496..], tail.as_slice());
}

#[test]
fn validates_power_of_two_sector_length_and_active_bounds() {
    let mut non_power_of_two = [0_u8; 500];
    assert_eq!(
        permute_power_of_two_in_place(&mut non_power_of_two, 0, 0, 1),
        Err(PagePermutationError::NonPowerOfTwoLength { len: 500 })
    );
    let mut sector = [0_u8; PAGE_PERMUTATION_SECTOR_LEN];
    assert_eq!(
        permute_sector_in_place(&mut sector[..511], 0, 0, 1),
        Err(PagePermutationError::InvalidSectorLength { len: 511 })
    );
    assert_eq!(
        permute_sector_in_place(&mut sector, 500, 12, 1),
        Err(PagePermutationError::InvalidActiveRange {
            len: 512,
            start: 500,
            tail: 12,
        })
    );
}

#[test]
fn zero_key_preserves_a_valid_active_range() {
    let mut bytes = [0xA5_u8; PAGE_PERMUTATION_SECTOR_LEN];
    let original = bytes;
    permute_sector_in_place(&mut bytes, 5, 16, 0).expect("zero key");
    assert_eq!(bytes, original);
}

/// The walk written out plainly with a modulus, as an independent oracle.
fn walk(bytes: &[u8], start: usize, tail: usize, key: i32) -> Vec<u8> {
    let len = bytes.len() as i64;
    let magnitude = key.unsigned_abs();
    let increment = ((magnitude >> 8) as u8) | 1;
    let word = ((magnitude >> 16) as u16).wrapping_add((magnitude & 0xff) as u16) | 1;
    let stride = i64::from(word as i16) * if key < 0 { -1 } else { 1 };
    let low = magnitude as u8;
    let mut seed = low;
    if key < 0 {
        let factor = start + tail + 1 + if bytes.len() < 256 { bytes.len() } else { 0 };
        seed = increment.wrapping_mul(factor as u8).wrapping_sub(low);
    }
    let cycle: Vec<usize> = (0..len)
        .map(|k| (start as i64 + k * stride).rem_euclid(len) as usize)
        .filter(|p| (start..bytes.len() - tail).contains(p))
        .collect();
    let mut out = bytes.to_vec();
    for (i, &p) in cycle.iter().enumerate() {
        out[p] = bytes[cycle[(i + 1) % cycle.len()]].wrapping_add(seed);
        seed = seed.wrapping_add(increment);
    }
    out
}

#[test]
fn agrees_with_the_residue_walk_for_many_keys_and_ranges() {
    let keys = [1, -1, 0x0100, -0x0100, 0x7fff_ffff, i32::MIN, 0x00ff_00ff, -77_777_777];
    for len in [1_usize, 2, 8, 64, 128, 256, 1024] {
        let original: Vec<u8> = (0..len).map(|i| (i * 91 + 7) as u8).collect();
        for key in keys {
            for (start, tail) in [(0, 0), (len / 4, len / 8), (len - 1, 0), (0, len - 1)] {
                let mut bytes = original.clone();
                assert_eq!(
                    permute_power_of_two_in_place(&mut bytes, start, tail, key),
                    Ok(())
                );
                assert_eq!(bytes, walk(&original, start, tail, key));
                assert_eq!(bytes[..start], original[..start]);
                assert_eq!(bytes[len - tail..], original[len - tail..]);
            }
        }
    }
}

#[test]
fn opposite_keys_restore_long_buffers_and_shift_short_ones() {
    for len in [8_usize, 64, 128, 256, 512] {
        let original: Vec<u8> = (0..len).map(|i| (i * 3) as u8).collect();
        let key = 0x0102_0305;
        let mut bytes = original.clone();
        permute_power_of_two_in_place(&mut bytes, 1, 2, key).unwrap();
        permute_power_of_two_in_place(&mut bytes, 1, 2, -key).unwrap();
        let excess = if len < 128 { (2 * len * 3) as u8 } else { 0 };
        let expected: Vec<u8> = (0..len)
            .map(|i| {
                if (1..len - 2).contains(&i) {
                    original[i].wrapping_add(excess)
                } else {
                    original[i]
                }
            })
            .collect();
        assert_eq!(bytes, expected);
    }
}
