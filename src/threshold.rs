//! Hashing against a threshold estimated from the dictionary itself: the mean Hamming
//! distance over ordered pairs of distinct codewords, with a tie-break that alternates
//! between `<` and `<=` from one codeword to the next.
use vstd::prelude::*;
use crate::bytes::{bit_at, distance, hamming, lemma_hamming_bound, pack_bits};
use crate::{generate_codewords, generated_dict, views};

verus! {

/// `hamming(words[i], words[t])` summed over `t < j`, `t != i`.
pub open spec fn row_sum(words: Seq<Seq<u8>>, i: int, j: int) -> nat
    decreases j,
{
    if j <= 0 {
        0
    } else if j - 1 == i {
        row_sum(words, i, j - 1)
    } else {
        row_sum(words, i, j - 1) + hamming(words[i], words[j - 1])
    }
}

/// The distances of all ordered pairs `(s, t)` of distinct positions with `s < i`.
pub open spec fn pair_sum(words: Seq<Seq<u8>>, i: int) -> nat
    decreases i,
{
    if i <= 0 {
        0
    } else {
        pair_sum(words, i - 1) + row_sum(words, i - 1, words.len() as int)
    }
}

/// The mean distance over ordered pairs of distinct codewords, rounded down.
pub open spec fn mean_pair_distance(words: Seq<Seq<u8>>) -> nat {
    let n = words.len();
    pair_sum(words, n as int) / (n * (n - 1) as nat)
}

/// The distances from each sample to each word, sample by sample.
pub open spec fn pair_distances(samples: Seq<Seq<u8>>, words: Seq<Seq<u8>>) -> Seq<nat> {
    Seq::new(
        samples.len() * words.len(),
        |k: int| hamming(samples[k / words.len() as int], words[k % words.len() as int]),
    )
}

/// How many of `ds` are at most `t`.
pub open spec fn count_at_most(ds: Seq<nat>, t: nat) -> nat
    decreases ds.len(),
{
    if ds.len() == 0 {
        0
    } else {
        count_at_most(ds.drop_last(), t) + if ds.last() <= t {
            1nat
        } else {
            0nat
        }
    }
}

/// `t` is the median of `ds`: the element at position `len / 2` once they are sorted, that is
/// the least value at or below which more than half of them lie.
pub open spec fn is_median(ds: Seq<nat>, t: nat) -> bool {
    &&& 2 * count_at_most(ds, t) > ds.len()
    &&& t == 0 || 2 * count_at_most(ds, (t - 1) as nat) <= ds.len()
}

proof fn lemma_count_all(ds: Seq<nat>, t: nat)
    requires
        forall|i: int| 0 <= i < ds.len() ==> ds[i] <= t,
    ensures
        count_at_most(ds, t) == ds.len(),
    decreases ds.len(),
{
    if ds.len() > 0 {
        lemma_count_all(ds.drop_last(), t);
    }
}

/// The median of the distances from each sample to each codeword.
pub fn median_threshold<const B: usize>(samples: &Vec<[u8; B]>, codewords: &Vec<[u8; B]>) -> (r: u32)
    requires
        B * 8 <= u32::MAX,
        samples@.len() >= 1,
        codewords@.len() >= 1,
        samples@.len() * codewords@.len() <= usize::MAX,
    ensures
        is_median(pair_distances(views(samples@), views(codewords@)), r as nat),
{
    let ghost want = pair_distances(views(samples@), views(codewords@));
    let s = samples.len();
    let w = codewords.len();
    let mut ds: Vec<u32> = Vec::new();
    let mut i: usize = 0;
    while i < s
        invariant
            B * 8 <= u32::MAX,
            s == samples@.len(),
            w == codewords@.len(),
            w >= 1,
            s * w <= usize::MAX,
            want == pair_distances(views(samples@), views(codewords@)),
            want.len() == s * w,
            i <= s,
            ds@.len() == i * w,
            i * w <= s * w,
            forall|k: int| 0 <= k < ds@.len() ==> ds@[k] as nat == want[k],
        decreases s - i,
    {
        let mut j: usize = 0;
        proof {
            assert(i * w + 0 <= s * w) by (nonlinear_arith)
                requires
                    i < s,
            ;
        }
        while j < w
            invariant
                B * 8 <= u32::MAX,
                s == samples@.len(),
                w == codewords@.len(),
                w >= 1,
                s * w <= usize::MAX,
                want == pair_distances(views(samples@), views(codewords@)),
                want.len() == s * w,
                i < s,
                j <= w,
                ds@.len() == i * w + j,
                i * w + j <= s * w,
                forall|k: int| 0 <= k < ds@.len() ==> ds@[k] as nat == want[k],
            decreases w - j,
        {
            let d = distance(&samples[i], &codewords[j]);
            proof {
                let k = i * w + j;
                assert(k / (w as int) == i && k % (w as int) == j) by (nonlinear_arith)
                    requires
                        k == i * w + j,
                        j < w,
                        w >= 1,
                ;
                assert(k < s * w) by (nonlinear_arith)
                    requires
                        k == i * w + j,
                        j < w,
                        i < s,
                ;
                assert(views(samples@)[i as int] == samples@[i as int]@);
                assert(views(codewords@)[j as int] == codewords@[j as int]@);
            }
            ds.push(d);
            j = j + 1;
        }
        proof {
            assert(i * w + w == (i + 1) * w) by (nonlinear_arith);
            assert((i + 1) * w <= s * w) by (nonlinear_arith)
                requires
                    i < s,
            ;
        }
        i = i + 1;
    }
    let ghost dsv = ds@.map_values(|d: u32| d as nat);
    proof {
        assert(dsv =~= want);
        lemma_count_all(want, u32::MAX as nat);
        assert(s * w >= 1) by (nonlinear_arith)
            requires
                s >= 1,
                w >= 1,
        ;
    }
    let total = ds.len();
    let mut t: u32 = 0;
    loop
        invariant
            want == pair_distances(views(samples@), views(codewords@)),
            total == want.len(),
            total >= 1,
            ds@.len() == total,
            forall|k: int| 0 <= k < ds@.len() ==> ds@[k] as nat == want[k],
            count_at_most(want, u32::MAX as nat) == want.len(),
            t == 0 || 2 * count_at_most(want, (t - 1) as nat) <= want.len(),
        decreases u32::MAX - t,
    {
        let mut count: usize = 0;
        let mut k: usize = 0;
        while k < total
            invariant
                total == want.len(),
                ds@.len() == total,
                forall|q: int| 0 <= q < ds@.len() ==> ds@[q] as nat == want[q],
                k <= total,
                count == count_at_most(want.take(k as int), t as nat),
                count <= k,
            decreases total - k,
        {
            proof {
                assert(want.take(k + 1).drop_last() =~= want.take(k as int));
            }
            if ds[k] <= t {
                count = count + 1;
            }
            k = k + 1;
        }
        proof {
            assert(want.take(total as int) =~= want);
        }
        if count > total - count {
            return t;
        }
        t = t + 1;
    }
}

proof fn lemma_row_sum_bound(words: Seq<Seq<u8>>, i: int, j: int, width: nat)
    requires
        0 <= i < words.len(),
        0 <= j <= words.len(),
        forall|t: int| 0 <= t < words.len() ==> hamming(words[i], #[trigger] words[t]) <= width,
    ensures
        row_sum(words, i, j) <= (if j > i { j - 1 } else { j }) * width,
    decreases j,
{
    if j > 0 {
        lemma_row_sum_bound(words, i, j - 1, width);
        let c: int = if j - 1 > i { j - 2 } else { j - 1 };
        assert(c * width + width == (c + 1) * width) by (nonlinear_arith);
    }
}

proof fn lemma_pair_sum_bound(words: Seq<Seq<u8>>, i: int, width: nat)
    requires
        0 <= i <= words.len(),
        words.len() >= 1,
        forall|s: int, t: int|
            0 <= s < words.len() && 0 <= t < words.len() ==> hamming(
                #[trigger] words[s],
                #[trigger] words[t],
            ) <= width,
    ensures
        pair_sum(words, i) <= i * (words.len() - 1) * width,
    decreases i,
{
    if i > 0 {
        let n = words.len() as int;
        lemma_pair_sum_bound(words, i - 1, width);
        lemma_row_sum_bound(words, i - 1, n, width);
        assert((i - 1) * (n - 1) * width + (n - 1) * width == i * (n - 1) * width)
            by (nonlinear_arith);
    }
}

proof fn lemma_count_monotone(ds: Seq<nat>, t: nat, u: nat)
    requires
        t <= u,
    ensures
        count_at_most(ds, t) <= count_at_most(ds, u),
    decreases ds.len(),
{
    if ds.len() > 0 {
        lemma_count_monotone(ds.drop_last(), t, u);
    }
}

/// Neither threshold estimate exceeds the bit width `8 * B`: not the mean distance over
/// ordered pairs of distinct codewords, nor the median distance from samples to codewords.
pub proof fn lemma_thresholds_within_width<const B: usize>(
    codewords: Seq<[u8; B]>,
    samples: Seq<[u8; B]>,
    t: nat,
)
    requires
        codewords.len() >= 2,
        samples.len() >= 1,
        is_median(pair_distances(views(samples), views(codewords)), t),
    ensures
        mean_pair_distance(views(codewords)) <= 8 * B,
        t <= 8 * B,
{
    let words = views(codewords);
    let n = words.len() as int;
    let width = (8 * B) as nat;
    assert forall|s: int, u: int| 0 <= s < n && 0 <= u < n implies hamming(
        #[trigger] words[s],
        #[trigger] words[u],
    ) <= width by {
        lemma_hamming_bound(codewords[s]@, codewords[u]@);
    }
    lemma_pair_sum_bound(words, n, width);
    let pairs = (n * (n - 1)) as nat;
    assert(pairs > 0) by (nonlinear_arith)
        requires
            pairs == n * (n - 1),
            n >= 2,
    ;
    assert(pair_sum(words, n) <= pairs * width) by (nonlinear_arith)
        requires
            pair_sum(words, n) <= n * (n - 1) * width,
            pairs == n * (n - 1),
    ;
    assert(pair_sum(words, n) / pairs <= width) by (nonlinear_arith)
        requires
            pair_sum(words, n) <= pairs * width,
            pairs > 0,
    ;
    assert((n * (n - 1)) as nat == (n as nat * (n - 1) as nat) as nat);
    let ds = pair_distances(views(samples), words);
    assert forall|k: int| 0 <= k < ds.len() implies ds[k] <= width by {
        let m = words.len() as int;
        assert(ds.len() == samples.len() * m);
        assert(k / m < samples.len() && k % m < m) by (nonlinear_arith)
            requires
                0 <= k < samples.len() * m,
                m >= 1,
        ;
        assert(views(samples)[k / m] == samples[k / m]@);
        lemma_hamming_bound(samples[k / m]@, codewords[k % m]@);
    }
    lemma_count_all(ds, width);
    if t > width {
        lemma_count_monotone(ds, width, (t - 1) as nat);
        assert(ds.len() >= 1) by (nonlinear_arith)
            requires
                ds.len() == samples.len() * words.len(),
                samples.len() >= 1,
                words.len() >= 2,
        ;
    }
}

/// The features that a Xoshiro256++ generator seeded with `seed` draws, `count` of them,
/// each of `byte_len` uniformly drawn bytes.
pub uninterp spec fn sampled_features(byte_len: nat, count: nat, seed: u64) -> Seq<Seq<u8>>;

/// Relies on rand_xoshiro's `Xoshiro256PlusPlus::seed_from_u64` and rand's `Rng::gen` on
/// `[u8; B]`: `count` arrays drawn in turn from a generator that the seed alone fixes.
#[verifier::external_body]
fn sample_features<const B: usize>(count: usize, seed: u64) -> (r: Vec<[u8; B]>)
    ensures
        r@.len() == count,
        views(r@) == sampled_features(B as nat, count as nat, seed),
{
    let mut rng = <rand_xoshiro::Xoshiro256PlusPlus as rand::SeedableRng>::seed_from_u64(seed);
    (0..count).map(|_| rand::Rng::gen::<[u8; B]>(&mut rng)).collect()
}

/// Bit `ix` of a hash against threshold `t`: `(d < t) XOR (ix is odd)`.
pub open spec fn alternating_bit(d: nat, t: nat, ix: int) -> bool {
    (d < t) != (ix % 2 == 1)
}

/// The mean Hamming distance over ordered pairs of distinct codewords, rounded down.
pub fn mean_pairwise_threshold<const B: usize>(codewords: &Vec<[u8; B]>) -> (r: u32)
    requires
        B * 8 <= u32::MAX,
        2 <= codewords@.len() <= u32::MAX,
    ensures
        r as nat == mean_pair_distance(views(codewords@)),
{
    let ghost words = views(codewords@);
    let n = codewords.len();
    let mut sum: u128 = 0;
    let mut i: usize = 0;
    while i < n
        invariant
            words == views(codewords@),
            B * 8 <= u32::MAX,
            n == codewords@.len(),
            2 <= n <= u32::MAX,
            i <= n,
            sum == pair_sum(words, i as int),
            sum <= i * (n - 1) * (u32::MAX as nat),
        decreases n - i,
    {
        let mut j: usize = 0;
        let ghost start = sum;
        while j < n
            invariant
                words == views(codewords@),
                B * 8 <= u32::MAX,
                n == codewords@.len(),
                2 <= n <= u32::MAX,
                i < n,
                j <= n,
                start == pair_sum(words, i as int),
                start <= i * (n - 1) * (u32::MAX as nat),
                sum == start + row_sum(words, i as int, j as int),
                sum <= start + (if j > i { j - 1 } else { j as int }) * (u32::MAX as nat),
            decreases n - j,
        {
            if j != i {
                let d = distance(&codewords[i], &codewords[j]);
                proof {
                    assert(words[i as int] == codewords@[i as int]@);
                    assert(words[j as int] == codewords@[j as int]@);
                    let c: int = if j > i { j - 1 } else { j as int };
                    assert(c + 1 <= n - 1);
                    assert(start + c * (u32::MAX as nat) + u32::MAX as nat <= (i + 1) * (n - 1) * (
                    u32::MAX as nat)) by (nonlinear_arith)
                        requires
                            start <= i * (n - 1) * (u32::MAX as nat),
                            c + 1 <= n - 1,
                    ;
                    assert((i + 1) * (n - 1) * (u32::MAX as nat) <= n * n * (u32::MAX as nat))
                        by (nonlinear_arith)
                        requires
                            i < n,
                    ;
                    assert(n * n * (u32::MAX as nat) < u128::MAX) by (nonlinear_arith)
                        requires
                            n <= u32::MAX,
                    ;
                }
                sum = sum + d as u128;
            }
            proof {
                let c: int = if j > i { j - 1 } else { j as int };
                assert((c + 1) * (u32::MAX as nat) == c * (u32::MAX as nat) + u32::MAX as nat)
                    by (nonlinear_arith);
            }
            j = j + 1;
        }
        proof {
            assert(start + (n - 1) * (u32::MAX as nat) <= (i + 1) * (n - 1) * (u32::MAX as nat))
                by (nonlinear_arith)
                requires
                    start <= i * (n - 1) * (u32::MAX as nat),
            ;
        }
        i = i + 1;
    }
    proof {
        assert(n * (n - 1) <= u32::MAX * u32::MAX) by (nonlinear_arith)
            requires
                2 <= n <= u32::MAX,
        ;
    }
    let pairs: u128 = (n as u128) * ((n - 1) as u128);
    proof {
        assert(pairs > 0) by (nonlinear_arith)
            requires
                pairs == n * (n - 1),
                n >= 2,
        ;
    }
    let mean = sum / pairs;
    proof {
        assert(mean <= u32::MAX) by (nonlinear_arith)
            requires
                mean == sum / pairs,
                sum <= n * (n - 1) * (u32::MAX as nat),
                pairs == n * (n - 1),
                pairs > 0,
        ;
    }
    mean as u32
}

/// A hasher whose bits compare distances to its codewords with the mean pairwise distance
/// between them, alternating the tie-break from one codeword to the next.
#[derive(Clone, Debug)]
pub struct ThresholdHasher<const B: usize, const H: usize> {
    codewords: Vec<[u8; B]>,
    threshold: u32,
}

impl<const B: usize, const H: usize> ThresholdHasher<B, H> {
    /// The widths that a hasher can be built for.
    pub open spec fn sizes_ok() -> bool {
        &&& B * 8 <= u32::MAX
        &&& 0 < H
        &&& H * 8 <= u32::MAX
    }

    /// The codewords, in the order of the hash bits they decide.
    pub closed spec fn dictionary(&self) -> Seq<Seq<u8>> {
        views(self.codewords@)
    }

    pub closed spec fn threshold_value(&self) -> nat {
        self.threshold as nat
    }

    pub closed spec fn wf(&self) -> bool {
        &&& Self::sizes_ok()
        &&& self.codewords@.len() == H * 8
    }

    /// A hasher over the given codewords, of which there must be exactly `8 * H`.
    pub fn new_with_codewords(codewords: Vec<[u8; B]>) -> (r: Self)
        requires
            Self::sizes_ok(),
            codewords@.len() == H * 8,
        ensures
            r.wf(),
            r.dictionary() == views(codewords@),
            r.threshold_value() == mean_pair_distance(views(codewords@)),
    {
        let threshold = mean_pairwise_threshold(&codewords);
        ThresholdHasher { codewords, threshold }
    }

    /// A hasher whose codewords hamming_dict generates from `seed`.
    pub fn new_with_seed(seed: u64) -> (r: Self)
        requires
            Self::sizes_ok(),
        ensures
            r.wf(),
            r.dictionary() == generated_dict(B as nat, H as nat * 8, seed),
            r.threshold_value() == mean_pair_distance(generated_dict(B as nat, H as nat * 8, seed)),
    {
        let codewords = generate_codewords::<B>(H * 8, seed);
        Self::new_with_codewords(codewords)
    }

    /// A hasher over the given codewords, of which there must be exactly `8 * H`, whose
    /// threshold is the median distance from the given samples to the codewords.
    pub fn new_with_samples(codewords: Vec<[u8; B]>, samples: &Vec<[u8; B]>) -> (r: Self)
        requires
            Self::sizes_ok(),
            codewords@.len() == H * 8,
            samples@.len() >= 1,
            samples@.len() * (H * 8) <= usize::MAX,
        ensures
            r.wf(),
            r.dictionary() == views(codewords@),
            is_median(pair_distances(views(samples@), views(codewords@)), r.threshold_value()),
    {
        let threshold = median_threshold(samples, &codewords);
        ThresholdHasher { codewords, threshold }
    }

    /// A hasher over the given codewords, of which there must be exactly `8 * H`, whose
    /// threshold is the median distance to them from `count` features drawn from a
    /// generator seeded with `seed`.
    pub fn new_with_sampled_median(codewords: Vec<[u8; B]>, count: usize, seed: u64) -> (r: Self)
        requires
            Self::sizes_ok(),
            codewords@.len() == H * 8,
            count >= 1,
            count * (H * 8) <= usize::MAX,
        ensures
            r.wf(),
            r.dictionary() == views(codewords@),
            is_median(
                pair_distances(sampled_features(B as nat, count as nat, seed), views(codewords@)),
                r.threshold_value(),
            ),
    {
        let samples = sample_features::<B>(count, seed);
        Self::new_with_samples(codewords, &samples)
    }

    /// The codewords, in the order of the hash bits they decide.
    pub fn codewords(&self) -> (r: &Vec<[u8; B]>)
        ensures
            views(r@) == self.dictionary(),
    {
        &self.codewords
    }

    pub fn threshold(&self) -> (r: u32)
        ensures
            r == self.threshold_value(),
    {
        self.threshold
    }

    /// The hash of one feature: bit `ix` is `(d < threshold) XOR (ix is odd)`, where `d` is
    /// the distance from the feature to codeword `ix`.
    pub fn hash(&self, feature: &[u8; B]) -> (r: [u8; H])
        requires
            self.wf(),
        ensures
            r@.len() == H,
            forall|ix: int|
                0 <= ix < H * 8 ==> bit_at(r@, ix) == alternating_bit(
                    hamming(feature@, self.dictionary()[ix]),
                    self.threshold_value(),
                    ix,
                ),
    {
        let mut bits: Vec<bool> = Vec::new();
        let mut ix: usize = 0;
        while ix < self.codewords.len()
            invariant
                self.wf(),
                ix <= self.codewords@.len(),
                bits@.len() == ix,
                forall|i: int|
                    0 <= i < ix ==> bits@[i] == alternating_bit(
                        hamming(feature@, self.dictionary()[i]),
                        self.threshold_value(),
                        i,
                    ),
            decreases self.codewords@.len() - ix,
        {
            let d = distance(feature, &self.codewords[ix]);
            bits.push((d < self.threshold) != (ix % 2 == 1));
            ix = ix + 1;
        }
        let r = pack_bits(&bits);
        proof {
            assert forall|i: int| 0 <= i < H * 8 implies bit_at(r@, i) == alternating_bit(
                hamming(feature@, self.dictionary()[i]),
                self.threshold_value(),
                i,
            ) by {
                assert(bit_at(r@, i) == bits@[i]);
            }
        }
        r
    }
}

} // verus!
