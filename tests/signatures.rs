use vettore::error::VettoreError;
use vettore::signature::{hamming_distance, hamming_distance_bits, pack_sign_bits};

fn signs_of(v: &[f32]) -> Vec<bool> {
    v.iter().map(|x| *x >= 0.0).collect()
}

#[test]
fn pack_empty_pattern_gives_no_words() {
    assert_eq!(pack_sign_bits(&[]), Vec::<u64>::new());
}

#[test]
fn pack_short_pattern_is_left_aligned() {
    let words = pack_sign_bits(&[true, false, true]);
    assert_eq!(words, vec![0b101u64 << 61]);
}

#[test]
fn pack_uses_one_word_per_sixty_four_signs() {
    let all = vec![true; 64];
    assert_eq!(pack_sign_bits(&all), vec![u64::MAX]);
    let mut more = vec![false; 65];
    more[64] = true;
    more[0] = true;
    assert_eq!(pack_sign_bits(&more), vec![1u64 << 63, 1u64 << 63]);
    assert_eq!(pack_sign_bits(&vec![false; 129]).len(), 3);
}

#[test]
fn zero_component_counts_as_non_negative() {
    let words = pack_sign_bits(&signs_of(&[0.0, -1.0, 2.0, -0.5]));
    assert_eq!(words, vec![0b1010u64 << 60]);
}

#[test]
fn hamming_counts_differing_bits() {
    assert_eq!(hamming_distance(&[0b1011], &[0b0110]), 3);
    assert_eq!(hamming_distance(&[u64::MAX, 0], &[0, 0]), 64);
    assert_eq!(hamming_distance(&[], &[]), 0);
}

#[test]
fn hamming_uses_the_common_prefix_of_words() {
    assert_eq!(hamming_distance(&[1, u64::MAX], &[0]), 1);
}

#[test]
fn signature_round_trip_and_single_flip() {
    let v: Vec<f32> = (0..100).map(|i| if i % 3 == 0 { -1.0 } else { 0.5 * i as f32 }).collect();
    let a = pack_sign_bits(&signs_of(&v));
    assert_eq!(a.len(), (100 + 63) / 64);
    assert_eq!(hamming_distance(&a, &a), 0);
    for i in 0..v.len() {
        let mut w = v.clone();
        w[i] = if w[i] >= 0.0 { -1.0 } else { 1.0 };
        let b = pack_sign_bits(&signs_of(&w));
        assert_eq!(hamming_distance(&a, &b), 1);
    }
}

#[test]
fn hamming_bits_checks_lengths() {
    assert_eq!(hamming_distance_bits(vec![1, 2], vec![1]), Err(VettoreError::LengthMismatch));
    assert_eq!(hamming_distance_bits(vec![0b111, 0], vec![0, 1]), Ok(4));
}
