use edge_governance::commitment::{bytes32_eq, commitment_of};

#[test]
fn commitment_matches_blake2b_256_of_account_secret_outcome() {
    let expected: [u8; 32] = [
        63, 128, 170, 21, 130, 59, 15, 178, 72, 196, 215, 82, 39, 186, 254, 191, 77, 26, 221, 49, 0,
        188, 6, 231, 113, 34, 181, 34, 50, 251, 71, 83,
    ];
    assert_eq!(commitment_of(0x0102030405060708, &[5u8; 32], &[1u8; 32]), expected);
}

#[test]
fn commitment_known_answer_small_account() {
    let expected: [u8; 32] = [
        131, 129, 7, 71, 179, 135, 53, 101, 193, 98, 185, 255, 125, 53, 121, 77, 191, 122, 18, 81,
        130, 122, 97, 10, 152, 220, 41, 173, 176, 62, 23, 113,
    ];
    assert_eq!(commitment_of(7, &[9u8; 32], &[2u8; 32]), expected);
}

#[test]
fn commitment_depends_on_every_part() {
    let base = commitment_of(7, &[9u8; 32], &[2u8; 32]);
    assert_ne!(commitment_of(8, &[9u8; 32], &[2u8; 32]), base);
    assert_ne!(commitment_of(7, &[8u8; 32], &[2u8; 32]), base);
    assert_ne!(commitment_of(7, &[9u8; 32], &[3u8; 32]), base);
}

#[test]
fn bytes32_eq_compares_every_byte() {
    let a = [4u8; 32];
    let mut b = a;
    assert!(bytes32_eq(&a, &b));
    b[31] = 5;
    assert!(!bytes32_eq(&a, &b));
}
