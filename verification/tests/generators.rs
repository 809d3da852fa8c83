use mx3::{v1, v2, v3};
use rand_core::{RngCore, SeedableRng};

#[test]
fn first_draws_have_their_known_values() {
    let mut rng = v3::Mx3Rng::new(1);
    assert_eq!(rng.next_u64(), 0xe8ebdbc439df412a);
    assert_eq!(rng.next_u64(), 0x4d476d5425a174d9);
    assert_eq!(rng.next_u64(), 0x25df1f0f415d5be5);
}

#[test]
fn revisions_one_and_two_start_at_the_seed() {
    assert_eq!(v1::Mx3Rng::new(123).state(), 123);
    assert_eq!(v2::Mx3Rng::new(123).state(), 123);
    assert_eq!(v1::Mx3Rng::new(1).next_u64(), v1::mix(1));
    assert_eq!(v2::Mx3Rng::new(1).next_u64(), v2::mix(1));
}

#[test]
fn revision_three_starts_at_the_mixed_seed() {
    assert_eq!(v3::Mx3Rng::new(1).state(), 0xee6e351092bcca89);
    assert_eq!(
        v3::Mx3Rng::new(u64::MAX).state(),
        v3::mix(u64::MAX.wrapping_add(0xbea225f9eb34556d))
    );
    assert_eq!(v3::Mx3Rng::resume(1).state(), 1);
    assert_eq!(v3::Mx3Rng::resume(1).next_u64(), v3::mix(1));
}

#[test]
fn each_draw_moves_the_counter_by_one() {
    let mut rng = v1::Mx3Rng::new(10);
    rng.next_u64();
    assert_eq!(rng.state(), 11);
    rng.next_u32();
    assert_eq!(rng.state(), 12);

    let mut rng = v3::Mx3Rng::resume(10);
    rng.next_u32();
    rng.next_u32();
    assert_eq!(rng.state(), 12);
}

#[test]
fn the_counter_wraps_behind_the_largest_word() {
    let mut rng = v1::Mx3Rng::new(u64::MAX);
    assert_eq!(rng.next_u64(), 0xdfcfdef0a1806cc4);
    assert_eq!(rng.state(), 0);
    assert_eq!(rng.next_u64(), 0);

    let mut rng = v2::Mx3Rng::new(u64::MAX);
    rng.next_u64();
    assert_eq!(rng.state(), 0);

    let mut rng = v3::Mx3Rng::resume(u64::MAX);
    rng.next_u64();
    assert_eq!(rng.state(), 0);
}

#[test]
fn two_short_draws_are_not_the_halves_of_one_long_draw() {
    let mut long = v3::Mx3Rng::new(1);
    let mut short = v3::Mx3Rng::new(1);
    let first = long.next_u64();
    let second = long.next_u64();
    assert_eq!(short.next_u32(), first as u32);
    assert_eq!(short.next_u32(), second as u32);
    assert_ne!(short.state(), v3::Mx3Rng::new(1).state().wrapping_add(1));
}

#[test]
fn resume_continues_the_sequence() {
    for n in [0usize, 1, 2, 17] {
        for m in [0usize, 1, 5] {
            let mut source = v3::Mx3Rng::new(99);
            for _ in 0..n {
                source.next_u64();
            }
            let mut resumed = v3::Mx3Rng::resume(source.state());
            for _ in 0..m {
                assert_eq!(resumed.next_u64(), source.next_u64());
            }
            assert_eq!(resumed.state(), source.state());
        }
    }
}

#[test]
fn new_resumes_in_revisions_one_and_two() {
    for n in [0usize, 1, 9] {
        let mut source = v1::Mx3Rng::new(5);
        let mut second = v2::Mx3Rng::new(5);
        for _ in 0..n {
            source.next_u64();
            second.next_u64();
        }
        let mut resumed = v1::Mx3Rng::new(source.state());
        let mut resumed_second = v2::Mx3Rng::new(second.state());
        for _ in 0..4 {
            assert_eq!(resumed.next_u64(), source.next_u64());
            assert_eq!(resumed_second.next_u64(), second.next_u64());
        }
    }
}

#[test]
fn resumed_draws_are_the_later_draws_of_the_first() {
    let mut first = v3::Mx3Rng::new(3);
    let all: Vec<u64> = (0..12).map(|_| first.next_u64()).collect();
    let mut again = v3::Mx3Rng::new(3);
    for _ in 0..5 {
        again.next_u64();
    }
    let mut resumed = v3::Mx3Rng::resume(again.state());
    let later: Vec<u64> = (0..7).map(|_| resumed.next_u64()).collect();
    assert_eq!(&all[5..], &later[..]);
}

#[test]
fn fill_bytes_has_its_known_values() {
    let mut buffer = [0u8; 11];
    v3::Mx3Rng::new(1).fill_bytes(&mut buffer);
    assert_eq!(buffer, [42, 65, 223, 57, 196, 219, 235, 232, 217, 116, 161]);

    let mut buffer = [0u8; 11];
    v1::Mx3Rng::new(1).fill_bytes(&mut buffer);
    assert_eq!(buffer, [43, 48, 109, 211, 70, 173, 30, 62, 166, 15, 215]);

    let mut buffer = [0u8; 11];
    v2::Mx3Rng::new(1).fill_bytes(&mut buffer);
    assert_eq!(buffer, [31, 152, 217, 0, 222, 148, 24, 7, 203, 70, 27]);
}

#[test]
fn fill_bytes_lays_draws_down_little_end_first() {
    for len in [0usize, 1, 3, 4, 5, 7, 8, 9, 12, 13, 16, 31, 64] {
        let mut rng = v3::Mx3Rng::new(2024);
        let mut draws = rng.clone();
        let mut buffer = vec![0x5au8; len];
        rng.fill_bytes(&mut buffer);

        let mut expected = Vec::new();
        while expected.len() < len {
            expected.extend_from_slice(&draws.next_u64().to_le_bytes());
        }
        expected.truncate(len);
        assert_eq!(buffer, expected);
        assert_eq!(rng.state(), draws.state());
    }
}

#[test]
fn fill_bytes_takes_one_draw_for_each_started_word() {
    for (len, draws) in [(0usize, 0u64), (1, 1), (4, 1), (8, 1), (9, 2), (16, 2), (17, 3)] {
        let mut rng = v1::Mx3Rng::new(100);
        let mut buffer = vec![0u8; len];
        rng.fill_bytes(&mut buffer);
        assert_eq!(rng.state(), 100 + draws);

        let mut rng = v2::Mx3Rng::new(100);
        rng.fill_bytes(&mut buffer);
        assert_eq!(rng.state(), 100 + draws);
    }
}

#[test]
fn try_fill_bytes_fills_as_fill_bytes_does() {
    let mut one = v3::Mx3Rng::new(8);
    let mut other = one.clone();
    let mut a = [0u8; 21];
    let mut b = [0u8; 21];
    one.fill_bytes(&mut a);
    assert!(other.try_fill_bytes(&mut b).is_ok());
    assert_eq!(a, b);
    assert_eq!(one.state(), other.state());

    let mut rng = v1::Mx3Rng::new(8);
    assert!(rng.try_fill_bytes(&mut a).is_ok());
    let mut rng = v2::Mx3Rng::new(8);
    assert!(rng.try_fill_bytes(&mut a).is_ok());
}

#[test]
fn from_seed_reads_the_seed_big_end_first() {
    let seed = [1u8, 2, 3, 4, 5, 6, 7, 8];
    assert_eq!(v1::Mx3Rng::from_seed(seed).state(), 0x0102030405060708);
    assert_eq!(v2::Mx3Rng::from_seed(seed).state(), 0x0102030405060708);
    assert_eq!(v3::Mx3Rng::from_seed(seed).state(), 0x637485b46b2912df);
    assert_eq!(
        v3::Mx3Rng::from_seed(seed).state(),
        v3::Mx3Rng::new(0x0102030405060708).state()
    );
    assert_eq!(v1::Mx3Rng::from_seed([0, 0, 0, 0, 0, 0, 0, 1]).state(), 1);
}

#[test]
fn clones_draw_alike() {
    let mut rng = v2::Mx3Rng::new(77);
    rng.next_u64();
    let mut copy = rng.clone();
    for _ in 0..10 {
        assert_eq!(rng.next_u64(), copy.next_u64());
    }
}

#[test]
fn no_draw_repeats_soon() {
    let mut rng = v3::Mx3Rng::new(0);
    let mut seen: Vec<u64> = (0..2000).map(|_| rng.next_u64()).collect();
    seen.sort();
    seen.dedup();
    assert_eq!(seen.len(), 2000);
}
