use mx3::v3::{hash, mix, Mx3Rng};
use rand_core::RngCore;


#[test]
fn v3_test_mix() {
    assert_eq!(mix(123456789), 0x95bd1de6327dae0a);
}

#[test]
fn v3_test_hash() {
    let input = b"abcdefghijklmnopqrstuvwxyz";
    let outputs: [u64; 27] = [
        0x4e069d451e12ced8,
        0x5eb36ac9592ab1df,
        0x28aee35eb05b5e01,
        0xc84bb340afd4c59c,
        0xeeded76f960ae7a1,
        0x80a4d25e6705d3ba,
        0x76e1913cb3491d76,
        0xe2a6e400fe57f6c3,
        0x606b49ce1423ae16,
        0x79b96174f8e230a0,
        0x9e602ef1d012bb2d,
        0x9f9709e439dd8999,
        0x1503884eae03740a,
        0xf208267c7e8a461c,
        0xa08d41054b42ce80,
        0x6129ee7c45f92fff,
        0x9405c374e7cec176,
        0x9cc7a2b54b9c4478,
        0x9d0e1fca25723cac,
        0xde4e43505cedd231,
        0x91462bc2c10a62ba,
        0x1e84991efaf319c1,
        0x5c41b4a8350c9a0a,
        0xf5d4ce766a91e9bd,
        0x17dcc3722edeeee,
        0x224dc0b46df3f834,
        0x6c16bdf4571e7844,
    ];

    for len in 0..=26 {
        let result = hash(&input[0..len], 123456789);
        assert_eq!(result, outputs[len]);
    }
}

#[test]
fn v3_test_hash_long() {
    let result = hash(b"The quick brown fox jumps over the lazy dog. The quick brown fox jumps over the lazy dog.", 123456789);
    assert_eq!(result, 0x591893507ccdbfdf);
}

#[test]
fn v3_test_mx3rng_64() {
    let mut rng = Mx3Rng::new(1);
    assert_eq!(rng.next_u64(), 0xe8eb_dbc4_39df_412a);
    assert_eq!(rng.next_u64(), 0x4d47_6d54_25a1_74d9);
}

#[test]
fn v3_test_mx3rng_32() {
    let mut rng = Mx3Rng::new(1);
    assert_eq!(rng.next_u32(), 0x39df_412a);
    assert_eq!(rng.next_u32(), 0x25a1_74d9);
}

#[test]
fn v3_test_debug() {
    let rng = Mx3Rng::new(1);
    assert_eq!(format!("{:?}", rng), "Mx3Rng {...}");
}

#[test]
fn v3_test_clone() {
    let mut rng = Mx3Rng::new(1);
    rng.next_u64();

    let mut rng2 = rng.clone();

    assert_eq!(rng.next_u64(), rng2.next_u64());
}
