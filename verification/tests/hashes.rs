use mx3::{v1, v2, v3};

fn sample(len: usize) -> Vec<u8> {
    (0..len).map(|i| (i % 256) as u8).collect()
}

#[test]
fn hash_of_four_bytes_has_its_known_value() {
    assert_eq!(v1::hash(b"abcd", 123456789), 0x9cc98e8e7bcb7bab);
}

#[test]
fn hash_of_nothing_in_revisions_one_and_two_is_the_mixed_seed() {
    for seed in [0u64, 1, 123456789, u64::MAX] {
        assert_eq!(v1::hash(b"", seed), v1::mix(seed));
        assert_eq!(v2::hash(b"", seed), v2::mix(seed));
    }
}

#[test]
fn hash_of_nothing_in_revision_three_is_not_the_mixed_seed() {
    assert_eq!(v3::hash(b"", 123456789), 0x4e069d451e12ced8);
    assert_eq!(v3::hash(b"", 123456789), v3::mix(v3::mix_stream_2(123456789, 1)));
    assert_ne!(v3::hash(b"", 123456789), v3::mix(123456789));
}

#[test]
fn hash_is_the_same_on_every_call() {
    let data = sample(300);
    for len in [0usize, 1, 7, 8, 9, 63, 64, 65, 300] {
        for seed in [0u64, 42, u64::MAX] {
            assert_eq!(v1::hash(&data[..len], seed), v1::hash(&data[..len], seed));
            assert_eq!(v2::hash(&data[..len], seed), v2::hash(&data[..len], seed));
            assert_eq!(v3::hash(&data[..len], seed), v3::hash(&data[..len], seed));
        }
    }
}

#[test]
fn hash_depends_on_the_bytes_not_on_the_buffer() {
    let data = sample(100);
    let copy = data.clone();
    let mut longer = vec![0xeeu8; 3];
    longer.extend_from_slice(&data);
    assert_eq!(v1::hash(&data, 5), v1::hash(&copy, 5));
    assert_eq!(v2::hash(&data, 5), v2::hash(&longer[3..], 5));
    assert_eq!(v3::hash(&data, 5), v3::hash(&longer[3..], 5));
}

#[test]
fn revision_one_hashes_across_word_boundaries() {
    let data = sample(1024);
    assert_eq!(v1::hash(&data[..64], 42), 0x32180a2335cfc174);
    assert_eq!(v1::hash(&data[..65], 42), 0x5f4cd6880919c80a);
    assert_eq!(v1::hash(&data[..72], 42), 0xa3aab2a31694674d);
    assert_eq!(v1::hash(&data[..127], 42), 0x60a647f04030caac);
    assert_eq!(v1::hash(&data[..128], 42), 0x54c8baed34694755);
    assert_eq!(v1::hash(&data[..200], 42), 0x5a2827b563ae0ea1);
    assert_eq!(v1::hash(&data, 42), 0x51e69a2af155cb14);
}

#[test]
fn revision_two_hashes_across_word_boundaries() {
    let data = sample(1024);
    assert_eq!(v2::hash(&data[..64], 42), 0x8b153da7d357f8fa);
    assert_eq!(v2::hash(&data[..65], 42), 0x87a99bf2b6a0f91a);
    assert_eq!(v2::hash(&data[..72], 42), 0xf24efeadac217afa);
    assert_eq!(v2::hash(&data[..127], 42), 0xfaee00ee6ec35c5b);
    assert_eq!(v2::hash(&data[..128], 42), 0x3e78259688012577);
    assert_eq!(v2::hash(&data[..200], 42), 0x1823debc3f9ef15c);
    assert_eq!(v2::hash(&data, 42), 0x1486361b63e22a44);
}

#[test]
fn revision_three_hashes_across_block_boundaries() {
    let data = sample(1024);
    assert_eq!(v3::hash(&data[..64], 42), 0xa01b975d6c004f71);
    assert_eq!(v3::hash(&data[..65], 42), 0x7666f1254a7bfb8a);
    assert_eq!(v3::hash(&data[..72], 42), 0x599210d10370c2c6);
    assert_eq!(v3::hash(&data[..127], 42), 0x069ab9123595bdbb);
    assert_eq!(v3::hash(&data[..128], 42), 0x814c1c8806b0895b);
    assert_eq!(v3::hash(&data[..200], 42), 0x1cbc17df52d09979);
    assert_eq!(v3::hash(&data, 42), 0xba12491ef6ded92b);
}

#[test]
fn revision_three_block_is_eight_single_steps() {
    let data = sample(64);
    let mut h = v3::mix_stream_2(9, 65);
    for word in data.chunks(8) {
        let mut bytes = [0u8; 8];
        bytes.copy_from_slice(word);
        h = v3::mix_stream_2(h, u64::from_le_bytes(bytes));
    }
    assert_eq!(v3::hash(&data, 9), v3::mix(h));
}

#[test]
fn tail_bytes_go_in_as_one_little_endian_word() {
    let tail = [0xa1u8, 0xb2, 0xc3, 0xd4, 0xe5, 0xf6, 0x07];
    for len in 1..=7usize {
        let mut word = [0u8; 8];
        word[..len].copy_from_slice(&tail[..len]);
        let packed = u64::from_le_bytes(word);
        let seed = 77u64;
        assert_eq!(
            v1::hash(&tail[..len], seed),
            v1::mix(v1::mix_stream(seed ^ len as u64, packed))
        );
        assert_eq!(
            v2::hash(&tail[..len], seed),
            v2::mix(v2::mix_stream(seed ^ len as u64, packed))
        );
        assert_eq!(
            v3::hash(&tail[..len], seed),
            v3::mix(v3::mix_stream_2(v3::mix_stream_2(seed, len as u64 + 1), packed))
        );
    }
}

#[test]
fn a_trailing_zero_byte_changes_the_digest() {
    assert_ne!(v1::hash(b"abc", 1), v1::hash(b"abc\0", 1));
    assert_ne!(v2::hash(b"abc", 1), v2::hash(b"abc\0", 1));
    assert_ne!(v3::hash(b"abc", 1), v3::hash(b"abc\0", 1));
}

#[test]
fn revisions_disagree() {
    let data = b"The quick brown fox";
    let a = v1::hash(data, 3);
    let b = v2::hash(data, 3);
    let c = v3::hash(data, 3);
    assert_ne!(a, b);
    assert_ne!(b, c);
    assert_ne!(a, c);
}
