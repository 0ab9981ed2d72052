use fire_sim_core::noise::{hash_2d_bits, hash_3d_bits};

fn reference_hash(n0: i32) -> u32 {
    let mut n = n0;
    n = (n << 13) ^ n;
    n = n
        .wrapping_mul(n.wrapping_mul(n).wrapping_mul(15731).wrapping_add(789221))
        .wrapping_add(1376312589);
    (n & 0x7fff_ffff) as u32
}

#[test]
fn hash_2d_matches_formula() {
    assert_eq!(hash_2d_bits(0, 0, 0), reference_hash(0));
    assert_eq!(hash_2d_bits(0, 0, 0), 1376312589);
    assert_eq!(hash_2d_bits(1, 0, 0), reference_hash(1619));
    assert_eq!(hash_2d_bits(0, 1, 7), reference_hash(31337 + 7));
}

#[test]
fn hash_is_deterministic_and_bounded() {
    for x in -20..20 {
        for y in -20..20 {
            let h = hash_2d_bits(x, y, 42);
            assert_eq!(h, hash_2d_bits(x, y, 42));
            assert!(h <= 0x7fff_ffff);
        }
    }
    assert!(hash_3d_bits(i32::MAX, i32::MIN, -5, u32::MAX) <= 0x7fff_ffff);
}

#[test]
fn hash_3d_at_time_zero_is_2d() {
    for x in -5..5 {
        assert_eq!(hash_3d_bits(x, 3, 0, 9), hash_2d_bits(x, 3, 9));
    }
    assert_eq!(hash_3d_bits(0, 0, 1, 0), reference_hash(6971));
}

#[test]
fn hash_varies_with_position() {
    assert_ne!(hash_2d_bits(0, 0, 0), hash_2d_bits(1, 0, 0));
    assert_ne!(hash_2d_bits(0, 0, 0), hash_2d_bits(0, 1, 0));
    assert_ne!(hash_2d_bits(0, 0, 0), hash_2d_bits(0, 0, 1));
}
