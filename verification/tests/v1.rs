use mx3::v1::{hash, mix, Mx3Rng};
use rand_core::RngCore;


#[test]
fn v1_test_mix() {
    assert_eq!(mix(123456789), 0x566319fa1c03230f);
}

#[test]
fn v1_test_hash() {
    let input = b"abcdefghijklmnopqrstuvwxyz";
    let outputs: [u64; 27] = [
        0x566319fa1c03230f,
        0x1d4c331d9d3f2049,
        0x491f91a790cc7f0b,
        0x8e574f9a20d15f43,
        0x9cc98e8e7bcb7bab,
        0x2e014c9a9b41b79b,
        0x90874212c6dbd7d0,
        0xde1426833c7d882a,
        0x66685094340748cb,
        0xa2cc9f413d39f1bc,
        0x8a44bb7774cc3564,
        0x6e1f1e03075de002,
        0x76b37093e5d3ec,
        0x2b5350b03536f60b,
        0xcb6da1b8d49578c,
        0xb839559f09ab5c45,
        0x930b3e15662f1adb,
        0x8d3c63a40fbe05dd,
        0xb09cf7a6749ef821,
        0xb034e3927754a34,
        0x5fb9e1de0c1219f3,
        0xe3ac8d6b0d7675b0,
        0x4dc45e937a3111c7,
        0xea6df82321394835,
        0x94d8d33b442af454,
        0x113c64754ecc3ae7,
        0x1e29585a2a634374,
    ];

    for len in 0..=26 {
        let result = hash(&input[0..len], 123456789);
        assert_eq!(result, outputs[len]);
    }
}

#[test]
fn v1_test_hash_long() {
    let result = hash(b"The quick brown fox jumps over the lazy dog. The quick brown fox jumps over the lazy dog.", 123456789);
    assert_eq!(result, 0x7b519609f3b69338);
}

#[test]
fn v1_test_mx3rng_64() {
    let mut rng = Mx3Rng::new(1);
    assert_eq!(rng.next_u64(), 0x3e1e_ad46_d36d_302b);
    assert_eq!(rng.next_u64(), 0xaaf9_08c7_32d7_0fa6);
}

#[test]
fn v1_test_mx3rng_32() {
    let mut rng = Mx3Rng::new(1);
    assert_eq!(rng.next_u32(), 0xd36d_302b);
    assert_eq!(rng.next_u32(), 0x32d7_0fa6);
}

#[test]
fn v1_test_debug() {
    let rng = Mx3Rng::new(1);
    assert_eq!(format!("{:?}", rng), "Mx3Rng {...}");
}

#[test]
fn v1_test_clone() {
    let mut rng = Mx3Rng::new(1);
    rng.next_u64();

    let mut rng2 = rng.clone();

    assert_eq!(rng.next_u64(), rng2.next_u64());
}
