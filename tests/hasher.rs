use rand::{Rng, SeedableRng};
use hamming_lsh::imbalance::{correction_for_bag, shell_volume_bits};
use hamming_lsh::HammingHasher;

fn bits_to_u128(bits: &[bool]) -> u128 {
    let mut acc: u128 = 0;
    for (i, &b) in bits.iter().enumerate() {
        if b {
            assert!(i < 128);
            acc |= 1u128 << i;
        }
    }
    acc
}

fn float_imbalance(n: usize) -> f64 {
    fn choose(n: usize, k: usize) -> f64 {
        if k == 0 {
            1.0
        } else {
            choose(n - 1, k - 1) * n as f64 / k as f64
        }
    }
    let half_space = (0..n - 1).fold(1.0f64, |a, _| a * 2.0);
    let mut volume = 0.0;
    for radius in 0..=(n + 1) / 2 {
        volume += choose(n, radius);
    }
    volume / half_space - 1.0
}

struct Lcg(u64);

impl Lcg {
    fn next_byte(&mut self) -> u8 {
        self.0 = self.0.wrapping_mul(6364136223846793005).wrapping_add(1442695040888963407);
        (self.0 >> 56) as u8
    }

    fn feature<const B: usize>(&mut self) -> [u8; B] {
        let mut f = [0u8; B];
        for byte in f.iter_mut() {
            *byte = self.next_byte();
        }
        f
    }
}

fn weight(bytes: &[u8]) -> u32 {
    bytes.iter().map(|b| b.count_ones()).sum()
}

fn one_byte_hasher() -> HammingHasher<1, 1> {
    HammingHasher::<1, 1>::new_with_codewords(vec![
        [0x00], [0xFF], [0x0F], [0xF0], [0x01], [0x7F], [0x03], [0x3F],
    ])
}

#[test]
fn shell_volume_of_32_bits() {
    let bits = shell_volume_bits(32, 164);
    assert_eq!(bits.len(), 164);
    // 2^31 + C(32, 16) / 2
    assert_eq!(bits_to_u128(&bits), 2_448_023_843);
    let exact = 2_448_023_843f64 / 2_147_483_648f64 - 1.0;
    assert!((exact - float_imbalance(32)).abs() < 1e-12);
    assert!((exact - 0.139_949_934_091_418_98).abs() < 1e-12);
}

#[test]
fn shell_volume_of_8_bits() {
    let bits = shell_volume_bits(8, 116);
    // C(8,0) + ... + C(8,4) = 1 + 8 + 28 + 56 + 70
    assert_eq!(bits_to_u128(&bits), 163);
}

#[test]
fn correction_exact_values_8_bits() {
    // imbalance(8) = 70 / 256; correction = trunc(0.5 - m * 70 / 256)
    let expected = [0i128, 0, 0, 0, 0, 0, -1, -1, -1, -1, -2];
    for (m, &c) in expected.iter().enumerate() {
        assert_eq!(correction_for_bag(8, m), c, "m = {}", m);
    }
}

#[test]
fn correction_matches_float_formula() {
    for &n in &[8usize, 16, 32, 64] {
        let imbalance = float_imbalance(n);
        for m in 0..100usize {
            let float = (m as f64 * -imbalance + 0.5) as i128;
            assert_eq!(correction_for_bag(n, m), float, "n = {}, m = {}", n, m);
        }
    }
}

#[test]
fn imbalance_positive_and_decreasing() {
    let mut previous = f64::INFINITY;
    for &n in &[8usize, 16, 32, 64, 128, 256] {
        let bits = shell_volume_bits(n, 2 * n + 100);
        let mut volume = 0f64;
        for (i, &b) in bits.iter().enumerate() {
            if b {
                volume += (2f64).powi(i as i32);
            }
        }
        let imbalance = volume / (2f64).powi(n as i32 - 1) - 1.0;
        assert!(imbalance > 0.0);
        assert!(imbalance < previous);
        previous = imbalance;
    }
}

#[test]
fn hash_of_chosen_codewords() {
    let hasher = one_byte_hasher();
    assert_eq!(HammingHasher::<1, 1>::threshold(), 4);
    // distances from 0x00: 0, 8, 4, 4, 1, 7, 2, 6 -> within 4: bits 0, 2, 3, 4, 6
    assert_eq!(hasher.hash(&[0x00]), [0b0101_1101]);
    // distances from 0xFF: 8, 0, 4, 4, 7, 1, 6, 2 -> within 4: bits 1, 2, 3, 5, 7
    assert_eq!(hasher.hash(&[0xFF]), [0b1010_1110]);
}

#[test]
fn hash_bag_of_chosen_codewords() {
    let hasher = one_byte_hasher();
    // three features: votes per bit are +-1 sums; correction for 3 features of 8 bits is 0
    let bag = [[0x00u8], [0x00], [0xFF]];
    // votes: bit0 +1+1-1, bit1 -1-1+1, bit2 3, bit3 3, bit4 +1+1-1, bit5 -1-1+1, bit6 +1+1-1, bit7 -1-1+1
    assert_eq!(hasher.hash_bag(&bag), [0b0101_1101]);
}

#[test]
fn empty_bag_hashes_to_zero() {
    let hasher = HammingHasher::<4, 2>::new_with_seed(3);
    let empty: [[u8; 4]; 0] = [];
    assert_eq!(hasher.hash_bag(&empty), [0, 0]);
}

#[test]
fn same_seed_same_hasher() {
    let a = HammingHasher::<4, 4>::new_with_seed(42);
    let b = HammingHasher::<4, 4>::new_with_seed(42);
    assert_eq!(a.codewords(), b.codewords());
    assert_eq!(a.codewords().len(), 32);
    let mut rng = Lcg(7);
    for _ in 0..64 {
        let f = rng.feature::<4>();
        assert_eq!(a.hash(&f), b.hash(&f));
    }
}

#[test]
fn default_seed_is_zero() {
    let a = HammingHasher::<4, 2>::new();
    let b = HammingHasher::<4, 2>::new_with_seed(0);
    assert_eq!(a.codewords(), b.codewords());
}

#[test]
fn hash_lengths() {
    let hasher = HammingHasher::<4, 3>::new_with_seed(1);
    let f = [1u8, 2, 3, 4];
    assert_eq!(hasher.hash(&f).len(), 3);
    assert_eq!(hasher.hash_bag(&[f]).len(), 3);
    let empty: [[u8; 4]; 0] = [];
    assert_eq!(hasher.hash_bag(&empty).len(), 3);
}

#[test]
fn single_feature_bag_matches_hash() {
    let hasher = HammingHasher::<4, 4>::new_with_seed(9);
    let mut rng = Lcg(11);
    for _ in 0..200 {
        let f = rng.feature::<4>();
        assert_eq!(hasher.hash_bag(&[f]), hasher.hash(&f));
    }
}

#[test]
fn repeated_feature_bag_matches_single() {
    let hasher = HammingHasher::<4, 4>::new_with_seed(5);
    let mut rng = Lcg(13);
    for _ in 0..20 {
        let f = rng.feature::<4>();
        let single = hasher.hash_bag(&[f]);
        for k in 1..40 {
            let bag = vec![f; k];
            assert_eq!(hasher.hash_bag(&bag), single, "k = {}", k);
        }
    }
}

#[test]
fn hashes_are_roughly_balanced() {
    let hasher = HammingHasher::<8, 8>::new();
    let mut rng = Lcg(21);
    let features: Vec<[u8; 8]> = (0..1024).map(|_| rng.feature::<8>()).collect();
    let total: u32 = features.iter().map(|f| weight(&hasher.hash(f))).sum();
    let average = total as f64 / features.len() as f64;
    // 64 output bits: half of them is 32
    assert!((average - 32.0).abs() < 6.0, "average weight {}", average);
    let bag = hasher.hash_bag(&features);
    let bag_weight = weight(&bag);
    assert!(bag_weight > 16 && bag_weight < 48, "bag weight {}", bag_weight);
}

use hamming_lsh::threshold::{mean_pairwise_threshold, median_threshold, ThresholdHasher};

#[test]
fn mean_pairwise_threshold_of_chosen_codewords() {
    // ordered pairs of distinct codewords: d(0x00,0xFF)=8, d(0x00,0x0F)=4, d(0xFF,0x0F)=4
    // sum over ordered pairs = 2 * 16 = 32, pairs = 6, mean = 5 (rounded down)
    let words = vec![[0x00u8], [0xFF], [0x0F]];
    assert_eq!(mean_pairwise_threshold(&words), 5);
}

#[test]
fn mean_pairwise_threshold_of_identical_codewords_is_zero() {
    let words = vec![[0xAAu8, 0x55], [0xAA, 0x55], [0xAA, 0x55]];
    assert_eq!(mean_pairwise_threshold(&words), 0);
}

#[test]
fn median_threshold_of_chosen_samples() {
    // distances from 0x00 to 0x00, 0x01, 0x03, 0x07: 0, 1, 2, 3; from 0xFF: 8, 7, 6, 5
    // sorted: 0 1 2 3 5 6 7 8, element at position 4 is 5
    let words = vec![[0x00u8], [0x01], [0x03], [0x07]];
    let samples = vec![[0x00u8], [0xFF]];
    assert_eq!(median_threshold(&samples, &words), 5);
    let one = vec![[0x00u8]];
    // 0 1 2 3: element at position 2 is 2
    assert_eq!(median_threshold(&one, &words), 2);
}

#[test]
fn thresholds_lie_inside_the_width() {
    let hasher = ThresholdHasher::<8, 4>::new_with_seed(0);
    let t = hasher.threshold();
    assert!(t > 0 && t < 64, "mean threshold {}", t);
    let mut rng = Lcg(3);
    let samples: Vec<[u8; 8]> = (0..256).map(|_| rng.feature::<8>()).collect();
    let words = hasher.codewords().clone();
    let median = ThresholdHasher::<8, 4>::new_with_samples(words, &samples).threshold();
    assert!(median > 0 && median < 64, "median threshold {}", median);
}

#[test]
fn alternating_hash_of_chosen_codewords() {
    let words = vec![
        [0x00u8], [0xFF], [0x0F], [0xF0], [0x01], [0x7F], [0x03], [0x3F],
    ];
    let hasher = ThresholdHasher::<1, 1>::new_with_codewords(words);
    // threshold: mean over ordered pairs of distinct codewords
    let t = hasher.threshold();
    assert_eq!(t, 4);
    // distances from 0x00: 0, 8, 4, 4, 1, 7, 2, 6
    // even ix: d < 4; odd ix: not (d < 4), that is d >= 4
    // ix0 0<4 -> 1; ix1 8>=4 -> 1; ix2 4<4 no -> 0; ix3 4>=4 -> 1; ix4 1<4 -> 1; ix5 7>=4 -> 1; ix6 2<4 -> 1; ix7 6>=4 -> 1
    assert_eq!(hasher.hash(&[0x00]), [0b1111_1011]);
}

#[test]
fn threshold_hasher_same_seed() {
    let a = ThresholdHasher::<4, 2>::new_with_seed(8);
    let b = ThresholdHasher::<4, 2>::new_with_seed(8);
    assert_eq!(a.threshold(), b.threshold());
    assert_eq!(a.hash(&[1, 2, 3, 4]), b.hash(&[1, 2, 3, 4]));
}

#[test]
fn sampled_median_matches_drawn_samples() {
    let base = ThresholdHasher::<8, 4>::new_with_seed(0);
    let words = base.codewords().clone();
    let mut rng = rand_xoshiro::Xoshiro256PlusPlus::seed_from_u64(17);
    let samples: Vec<[u8; 8]> = (0..256).map(|_| rng.gen::<[u8; 8]>()).collect();
    let expected = median_threshold(&samples, &words);
    let hasher = ThresholdHasher::<8, 4>::new_with_sampled_median(words.clone(), 256, 17);
    assert_eq!(hasher.threshold(), expected);
    assert!(expected > 0 && expected < 64);
    let again = ThresholdHasher::<8, 4>::new_with_sampled_median(words, 256, 17);
    assert_eq!(again.threshold(), hasher.threshold());
}
