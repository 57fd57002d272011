use fluid_sim::morton::{morton_decode, morton_encode};

#[test]
fn morton_encode_interleaves_bits() {
    assert_eq!(morton_encode(0, 0), 0);
    assert_eq!(morton_encode(1, 0), 1);
    assert_eq!(morton_encode(0, 1), 2);
    assert_eq!(morton_encode(1, 1), 3);
    assert_eq!(morton_encode(2, 0), 4);
    assert_eq!(morton_encode(3, 5), 39);
    assert_eq!(morton_encode(511, 511), 262143);
    assert_eq!(morton_encode(0xffff, 0xffff), 0xffff_ffff);
}

#[test]
fn morton_encode_keeps_sixteen_bits() {
    assert_eq!(morton_encode(0x1_0003, 0x2_0005), morton_encode(3, 5));
    assert_eq!(morton_encode(usize::MAX, 0), morton_encode(0xffff, 0));
}

#[test]
fn morton_decode_values() {
    assert_eq!(morton_decode(0), (0, 0));
    assert_eq!(morton_decode(39), (3, 5));
    assert_eq!(morton_decode(262143), (511, 511));
    assert_eq!(morton_decode(0x1_0000_0027), (3, 5));
}

#[test]
fn morton_decode_inverts_encode() {
    for x in [0usize, 1, 2, 7, 100, 511, 65535] {
        for y in [0usize, 3, 9, 255, 1000, 65535] {
            assert_eq!(morton_decode(morton_encode(x, y)), (x, y));
        }
    }
}

#[test]
fn morton_encode_inverts_decode() {
    for z in [0usize, 1, 2, 3, 39, 1000, 262143, 0xdead_beef, 0xffff_ffff] {
        let (x, y) = morton_decode(z);
        assert_eq!(morton_encode(x, y), z);
    }
}

#[test]
fn morton_codes_of_the_grid_fill_its_indices() {
    let mut seen = vec![false; 512 * 512];
    for x in 0..512usize {
        for y in 0..512usize {
            let z = morton_encode(x, y);
            assert!(z < 512 * 512);
            assert!(!seen[z]);
            seen[z] = true;
        }
    }
    assert!(seen.iter().all(|&b| b));
}
