//! Balanced locality-sensitive hashing for Hamming space.
//!
//! A hasher holds `8 * H` codewords of `B` bytes. Bit `ix` of the hash of a feature says
//! whether the feature lies within half the bit width of codeword `ix`. A bag of features
//! is hashed by a vote per bit, corrected for the amount by which such a ball exceeds half
//! the space.
use vstd::prelude::*;
use vstd::arithmetic::power2::{lemma_pow2_adds, lemma_pow2_strictly_increases, pow2};
use crate::bignat::{add_bits, power_of_two_bits, value};
use crate::bytes::{bit_at, distance, hamming, pack_bits};
use crate::imbalance::{
    bag_correction, correction_from_total, half_space, lemma_corrected_sign,
    lemma_empty_bag_correction, lemma_total_bound,
    shell_volume,
    shell_volume_bits,
};

pub mod bignat;
pub mod bytes;
pub mod imbalance;
pub mod monotone;
pub mod threshold;

verus! {

/// The codewords that hamming_dict generates for a word count, a byte width and a seed.
pub uninterp spec fn generated_dict(byte_len: nat, words: nat, seed: u64) -> Seq<Seq<u8>>;

/// Relies on hamming_dict::generate_dict_seed: `words` codewords of `B` bytes, which depend
/// on `B`, `words` and `seed` alone.
#[verifier::external_body]
pub(crate) fn generate_codewords<const B: usize>(words: usize, seed: u64) -> (r: Vec<[u8; B]>)
    ensures
        r@.len() == words,
        views(r@) == generated_dict(B as nat, words as nat, seed),
{
    hamming_dict::generate_dict_seed::<B>(words, seed).into_iter().map(|w| w.bytes).collect()
}

/// The byte strings that a sequence of arrays holds.
pub open spec fn views<const B: usize>(words: Seq<[u8; B]>) -> Seq<Seq<u8>> {
    Seq::new(words.len(), |i: int| words[i]@)
}

/// The Hamming radius that splits `8 * b`-bit space in two: half of its bits.
pub open spec fn radius_of(b: nat) -> nat {
    b * 4
}

/// The vote of one feature on one codeword: `+1` within the radius, `-1` beyond it.
pub open spec fn vote(feature: Seq<u8>, word: Seq<u8>, radius: nat) -> int {
    if hamming(feature, word) <= radius {
        1
    } else {
        -1
    }
}

/// The sum of the votes of a bag of features on one codeword.
pub open spec fn votes<const B: usize>(features: Seq<[u8; B]>, word: Seq<u8>) -> int
    decreases features.len(),
{
    if features.len() == 0 {
        0
    } else {
        votes(features.drop_last(), word) + vote(features.last()@, word, radius_of(B as nat))
    }
}

/// A bag of `k` copies of one feature.
pub open spec fn repeated<const B: usize>(feature: [u8; B], k: nat) -> Seq<[u8; B]> {
    Seq::new(k, |_i: int| feature)
}

/// The votes of `k` copies of a feature are `k` times its vote.
pub proof fn lemma_votes_repeated<const B: usize>(feature: [u8; B], k: nat, word: Seq<u8>)
    ensures
        votes(repeated(feature, k), word) == k * vote(feature@, word, radius_of(B as nat)),
    decreases k,
{
    if k > 0 {
        let v = vote(feature@, word, radius_of(B as nat));
        assert(repeated(feature, k).drop_last() =~= repeated(feature, (k - 1) as nat));
        lemma_votes_repeated(feature, (k - 1) as nat, word);
        assert((k - 1) * v + v == k * v) by (nonlinear_arith);
    }
}

pub proof fn lemma_votes_bound<const B: usize>(features: Seq<[u8; B]>, word: Seq<u8>)
    ensures
        -features.len() <= votes(features, word) <= features.len(),
    decreases features.len(),
{
    if features.len() > 0 {
        lemma_votes_bound(features.drop_last(), word);
    }
}

/// The width in bits of the running totals of a hasher over `8 * b`-bit features.
pub open spec fn total_width(b: nat) -> nat {
    16 * b + 100
}

/// Builds balanced locality-sensitive hashes of `H` bytes from features of `B` bytes.
#[derive(Clone, Debug)]
pub struct HammingHasher<const B: usize, const H: usize> {
    codewords: Vec<[u8; B]>,
    double_volume: Vec<bool>,
}

impl<const B: usize, const H: usize> HammingHasher<B, H> {
    /// The widths that a hasher can be built for.
    pub open spec fn sizes_ok() -> bool {
        &&& 0 < B
        &&& B * 8 <= u32::MAX
        &&& 16 * B + 100 <= usize::MAX
        &&& 0 < H
        &&& H * 8 <= usize::MAX
    }

    /// The codewords, in the order of the hash bits they decide.
    pub closed spec fn dictionary(&self) -> Seq<Seq<u8>> {
        views(self.codewords@)
    }

    pub closed spec fn wf(&self) -> bool {
        &&& Self::sizes_ok()
        &&& self.codewords@.len() == H * 8
        &&& self.double_volume@.len() == total_width(B as nat)
        &&& value(self.double_volume@) == 2 * shell_volume(B as nat * 8)
    }

    pub fn new() -> (r: Self)
        requires
            Self::sizes_ok(),
        ensures
            r.wf(),
            r.dictionary() == generated_dict(B as nat, H as nat * 8, 0u64),
    {
        Self::new_with_seed(0)
    }

    /// A hasher whose codewords hamming_dict generates from `seed`.
    pub fn new_with_seed(seed: u64) -> (r: Self)
        requires
            Self::sizes_ok(),
        ensures
            r.wf(),
            r.dictionary() == generated_dict(B as nat, H as nat * 8, seed),
    {
        let codewords = generate_codewords::<B>(H * 8, seed);
        Self::new_with_codewords(codewords)
    }

    /// A hasher over the given codewords, of which there must be exactly `8 * H`.
    pub fn new_with_codewords(codewords: Vec<[u8; B]>) -> (r: Self)
        requires
            Self::sizes_ok(),
            codewords@.len() == H * 8,
        ensures
            r.wf(),
            r.dictionary() == views(codewords@),
    {
        let n = B * 8;
        let width = 16 * B + 100;
        proof {
            lemma_total_bound(n as nat, 0);
            lemma_pow2_adds(n as nat, 100);
            lemma_pow2_strictly_increases((n + 100) as nat, width as nat);
        }
        let volume = shell_volume_bits(n, width);
        let double_volume = add_bits(&volume, &volume);
        HammingHasher { codewords, double_volume }
    }

    /// The codewords, in the order of the hash bits they decide.
    pub fn codewords(&self) -> (r: &Vec<[u8; B]>)
        ensures
            views(r@) == self.dictionary(),
    {
        &self.codewords
    }

    /// The Hamming radius within which a feature counts as near a codeword.
    pub fn threshold() -> (r: u32)
        requires
            B * 4 <= u32::MAX,
        ensures
            r == radius_of(B as nat),
    {
        (B * 4) as u32
    }

    /// The hash of one feature: bit `ix` is set when the feature is within
    /// `threshold()` of codeword `ix`.
    pub fn hash(&self, feature: &[u8; B]) -> (r: [u8; H])
        requires
            self.wf(),
        ensures
            r@.len() == H,
            forall|ix: int|
                0 <= ix < H * 8 ==> bit_at(r@, ix) == (hamming(feature@, self.dictionary()[ix])
                    <= radius_of(B as nat)),
    {
        let radius = Self::threshold();
        let mut bits: Vec<bool> = Vec::new();
        let mut ix: usize = 0;
        while ix < self.codewords.len()
            invariant
                self.wf(),
                radius == radius_of(B as nat),
                ix <= self.codewords@.len(),
                bits@.len() == ix,
                forall|i: int|
                    0 <= i < ix ==> bits@[i] == (hamming(feature@, self.dictionary()[i])
                        <= radius_of(B as nat)),
            decreases self.codewords@.len() - ix,
        {
            let d = distance(feature, &self.codewords[ix]);
            bits.push(d <= radius);
            ix = ix + 1;
        }
        let r = pack_bits(&bits);
        proof {
            assert forall|i: int| 0 <= i < H * 8 implies bit_at(r@, i) == (hamming(
                feature@,
                self.dictionary()[i],
            ) <= radius_of(B as nat)) by {
                assert(bit_at(r@, i) == bits@[i]);
            }
        }
        r
    }

    /// The hash of a bag of features: bit `ix` is set when the votes of the features on
    /// codeword `ix`, plus the correction for a bag of that size, are above zero. The
    /// correction for an empty bag is `trunc(0.5) = 0`, so an empty bag hashes to all zeros.
    pub fn hash_bag(&self, features: &[[u8; B]]) -> (r: [u8; H])
        requires
            self.wf(),
        ensures
            r@.len() == H,
            forall|ix: int|
                0 <= ix < H * 8 ==> bit_at(r@, ix) == (votes(features@, self.dictionary()[ix])
                    + bag_correction(features@.len(), B as nat * 8) > 0),
            features@.len() == 0 ==> forall|ix: int| 0 <= ix < H * 8 ==> !bit_at(r@, ix),
    {
        let n = B * 8;
        let width = 16 * B + 100;
        let words = self.codewords.len();
        let radius = Self::threshold();
        let mut counts: Vec<i128> = Vec::new();
        let mut ix: usize = 0;
        while ix < words
            invariant
                ix <= words,
                counts@.len() == ix,
                forall|i: int| 0 <= i < ix ==> counts@[i] == 0,
            decreases words - ix,
        {
            counts.push(0);
            ix = ix + 1;
        }
        proof {
            assert(n + 100 <= width);
            lemma_pow2_adds(n as nat, 100);
            if n + 100 < width {
                lemma_pow2_strictly_increases((n + 100) as nat, width as nat);
            }
        }
        let mut total = power_of_two_bits(n - 1, width);
        let m = features.len();
        proof {
            assert(usize::MAX <= u64::MAX);
        }
        let mut j: usize = 0;
        while j < m
            invariant
                self.wf(),
                n == B * 8,
                width == total_width(B as nat),
                words == H * 8,
                radius == radius_of(B as nat),
                m == features@.len(),
                m <= u64::MAX,
                j <= m,
                pow2(n as nat) * pow2(100) <= pow2(width as nat),
                counts@.len() == words,
                forall|i: int|
                    0 <= i < words ==> counts@[i] == votes(
                        features@.take(j as int),
                        self.dictionary()[i],
                    ),
                total@.len() == width,
                value(total@) == 2 * j * shell_volume(n as nat) + half_space(n as nat),
            decreases m - j,
        {
            let feature = &features[j];
            let ghost before = counts@;
            proof {
                assert(features@.take(j + 1).drop_last() =~= features@.take(j as int));
            }
            let mut ix: usize = 0;
            while ix < words
                invariant
                    self.wf(),
                    words == H * 8,
                    radius == radius_of(B as nat),
                    j < m,
                    m == features@.len(),
                    m <= u64::MAX,
                    *feature == features@[j as int],
                    ix <= words,
                    counts@.len() == words,
                    before.len() == words,
                    forall|i: int|
                        0 <= i < words ==> before[i] == votes(
                            features@.take(j as int),
                            self.dictionary()[i],
                        ),
                    forall|i: int| ix <= i < words ==> counts@[i] == before[i],
                    forall|i: int|
                        0 <= i < ix ==> counts@[i] == votes(
                            features@.take(j + 1),
                            self.dictionary()[i],
                        ),
                decreases words - ix,
            {
                proof {
                    lemma_votes_bound(features@.take(j as int), self.dictionary()[ix as int]);
                    assert(counts@[ix as int] == before[ix as int]);
                    assert(self.dictionary()[ix as int] == self.codewords@[ix as int]@);
                    assert(features@.take(j + 1).last() == *feature);
                    assert(features@.take(j + 1).drop_last() =~= features@.take(j as int));
                }
                let d = distance(feature, &self.codewords[ix]);
                let step: i128 = if d <= radius { 1 } else { -1 };
                let updated = counts[ix] + step;
                counts.set(ix, updated);
                proof {
                    assert(step == vote(feature@, self.dictionary()[ix as int], radius_of(B as nat)));
                    assert(votes(features@.take(j + 1), self.dictionary()[ix as int]) == votes(
                        features@.take(j as int),
                        self.dictionary()[ix as int],
                    ) + vote(feature@, self.dictionary()[ix as int], radius_of(B as nat)));
                }
                ix = ix + 1;
            }
            proof {
                lemma_total_bound(n as nat, (j + 1) as nat);
                assert(2 * (j + 1) * shell_volume(n as nat) == 2 * j * shell_volume(n as nat) + 2
                    * shell_volume(n as nat)) by (nonlinear_arith);
            }
            total = add_bits(&total, &self.double_volume);
            j = j + 1;
        }
        proof {
            lemma_total_bound(n as nat, m as nat);
            assert(features@.take(m as int) =~= features@);
        }
        let correction = correction_from_total(&total, n, m);
        let mut bits: Vec<bool> = Vec::new();
        let mut ix: usize = 0;
        while ix < words
            invariant
                self.wf(),
                words == H * 8,
                m == features@.len(),
                correction == bag_correction(m as nat, B as nat * 8),
                -0x40_0000_0000_0000_0000_0000_0000 <= correction <= 0x40_0000_0000_0000_0000_0000_0000,
                m <= u64::MAX,
                counts@.len() == words,
                forall|i: int|
                    0 <= i < words ==> counts@[i] == votes(features@, self.dictionary()[i]),
                ix <= words,
                bits@.len() == ix,
                forall|i: int|
                    0 <= i < ix ==> bits@[i] == (votes(features@, self.dictionary()[i])
                        + bag_correction(m as nat, B as nat * 8) > 0),
            decreases words - ix,
        {
            proof {
                lemma_votes_bound(features@, self.dictionary()[ix as int]);
            }
            bits.push(counts[ix] + correction > 0);
            ix = ix + 1;
        }
        let r = pack_bits(&bits);
        proof {
            assert forall|i: int| 0 <= i < H * 8 implies bit_at(r@, i) == (votes(
                features@,
                self.dictionary()[i],
            ) + bag_correction(m as nat, B as nat * 8) > 0) by {
                assert(bit_at(r@, i) == bits@[i]);
            }
            if m == 0 {
                lemma_empty_bag_correction(B as nat * 8);
            }
        }
        r
    }

    /// A bag that holds one feature hashes as that feature does: for each codeword, the
    /// corrected vote of the bag is positive exactly when the feature is within the radius.
    pub proof fn lemma_single_bag_matches_hash(&self, feature: [u8; B])
        requires
            self.wf(),
        ensures
            forall|ix: int|
                0 <= ix < H * 8 ==> ((votes(seq![feature], self.dictionary()[ix]) + bag_correction(
                    1,
                    B as nat * 8,
                ) > 0) == (hamming(feature@, self.dictionary()[ix]) <= radius_of(B as nat))),
    {
        assert forall|ix: int| 0 <= ix < H * 8 implies ((votes(
            seq![feature],
            self.dictionary()[ix],
        ) + bag_correction(1, B as nat * 8) > 0) == (hamming(feature@, self.dictionary()[ix])
            <= radius_of(B as nat))) by {
            let word = self.dictionary()[ix];
            assert(seq![feature] =~= repeated(feature, 1));
            lemma_votes_repeated(feature, 1, word);
            lemma_corrected_sign(1, B as nat * 8, hamming(feature@, word) <= radius_of(B as nat));
        }
    }

    /// A bag of `k >= 1` copies of one feature hashes as that feature once: for each
    /// codeword, the corrected vote of the copies is positive exactly when the corrected
    /// vote of the single feature is, whatever correction the size `k` brings.
    pub proof fn lemma_repeated_bag_matches_single(&self, feature: [u8; B], k: nat)
        requires
            self.wf(),
            k >= 1,
        ensures
            forall|ix: int|
                0 <= ix < H * 8 ==> ((votes(repeated(feature, k), self.dictionary()[ix])
                    + bag_correction(k, B as nat * 8) > 0) == (votes(
                    seq![feature],
                    self.dictionary()[ix],
                ) + bag_correction(1, B as nat * 8) > 0)),
    {
        self.lemma_single_bag_matches_hash(feature);
        assert forall|ix: int| 0 <= ix < H * 8 implies ((votes(
            repeated(feature, k),
            self.dictionary()[ix],
        ) + bag_correction(k, B as nat * 8) > 0) == (votes(seq![feature], self.dictionary()[ix])
            + bag_correction(1, B as nat * 8) > 0)) by {
            let word = self.dictionary()[ix];
            let within = hamming(feature@, word) <= radius_of(B as nat);
            lemma_votes_repeated(feature, k, word);
            lemma_corrected_sign(k, B as nat * 8, within);
            if within {
                assert(k * vote(feature@, word, radius_of(B as nat)) == k);
            } else {
                assert(k * vote(feature@, word, radius_of(B as nat)) == -k);
            }
        }
    }
}

} // verus!
