use nix_gnome_extension::nix_hash::{nix_base32, sha256_nix_base32};

#[test]
fn sha256_is_52_chars() {
    let h = sha256_nix_base32(b"");
    assert_eq!(h.len(), 52);
}

#[test]
fn zero_hash_encodes_to_zeroes() {
    let zeros = [0u8; 32];
    assert_eq!(nix_base32(&zeros), "0".repeat(52));
}

#[test]
fn deterministic_and_distinct() {
    let a = sha256_nix_base32(b"a");
    let b = sha256_nix_base32(b"b");
    assert_ne!(a, b);
    assert_eq!(a, sha256_nix_base32(b"a"));
}

#[test]
fn single_byte_values() {
    assert_eq!(nix_base32(&[0x01]), "01");
    assert_eq!(nix_base32(&[0x1f]), "0z");
    assert_eq!(nix_base32(&[0x20]), "10");
    assert_eq!(nix_base32(&[0xff]), "7z");
}

#[test]
fn two_bytes_are_little_endian() {
    // 0x0100 = 256 = 8 * 32 -> digits 0, 8, 0 (most significant first)
    assert_eq!(nix_base32(&[0x00, 0x01]), "0080");
    // 0xffff = 65535 = 1*32^3 + 31*32^2 + 31*32 + 31
    assert_eq!(nix_base32(&[0xff, 0xff]), "1zzz");
}

#[test]
fn alphabet_skips_e_o_u_t() {
    let all: Vec<u8> = (0u8..=255).collect();
    let text = nix_base32(&all);
    for c in ['e', 'o', 'u', 't'] {
        assert!(!text.contains(c));
    }
    assert_eq!(text.len(), (256 * 8 - 1) / 5 + 1);
}

#[test]
fn sha256_of_empty_input() {
    assert_eq!(
        sha256_nix_base32(b""),
        "0mdqa9w1p6cmli6976v4wi0sw9r4p5prkj7lzfd1877wk11c9c73"
    );
}

#[test]
fn encoding_length_formula() {
    for n in 1..40usize {
        let bytes = vec![0xa5u8; n];
        assert_eq!(nix_base32(&bytes).len(), (n * 8 - 1) / 5 + 1);
    }
}

#[test]
fn encoding_orders_like_little_endian_value() {
    // values 1 < 256 < 257 < 65535 as little-endian pairs
    let inputs: [[u8; 2]; 4] = [[1, 0], [0, 1], [1, 1], [0xff, 0xff]];
    for i in 0..inputs.len() {
        for j in 0..inputs.len() {
            let (a, b) = (nix_base32(&inputs[i]), nix_base32(&inputs[j]));
            assert_eq!(a < b, i < j);
        }
    }
}
