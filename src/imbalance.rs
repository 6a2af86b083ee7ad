//! The excess of a Hamming ball of radius half the bit width over half the space,
//! and the correction it asks of a vote over a bag of features.
use vstd::prelude::*;
use vstd::arithmetic::power2::*;
use vstd::arithmetic::div_mod::{
    lemma_fundamental_div_mod, lemma_fundamental_div_mod_converse, lemma_mod_pos_bound,
};
use crate::bignat::{
    add_bits, high_part, lemma_value_skip, lemma_value_zero, low_part_nonzero, power_of_two_bits,
    value,
};

verus! {

/// The binomial coefficient `C(n, k)`, by Pascal's rule.
pub open spec fn binom(n: nat, k: nat) -> nat
    decreases n,
{
    if k == 0 {
        1
    } else if n == 0 {
        0
    } else {
        binom((n - 1) as nat, (k - 1) as nat) + binom((n - 1) as nat, k)
    }
}

/// Number of points of `n`-bit space within distance `r` of a point: `C(n, 0) + ... + C(n, r)`.
pub open spec fn ball_volume(n: nat, r: nat) -> nat
    decreases r,
{
    if r == 0 {
        binom(n, 0)
    } else {
        ball_volume(n, (r - 1) as nat) + binom(n, r)
    }
}

/// The volume of the ball of radius `(n + 1) / 2` in `n`-bit space.
pub open spec fn shell_volume(n: nat) -> nat {
    ball_volume(n, (n + 1) / 2)
}

/// Half of `n`-bit space: `2^(n - 1)`.
pub open spec fn half_space(n: nat) -> nat {
    pow2((n - 1) as nat)
}

/// Division rounding toward zero.
pub open spec fn trunc_div(a: int, d: int) -> int {
    if a >= 0 {
        a / d
    } else {
        -((-a) / d)
    }
}

/// `trunc(0.5 - m * imbalance(n))`, where `imbalance(n) = shell_volume(n) / half_space(n) - 1`,
/// computed exactly: `((2m + 1) * half_space(n) - 2m * shell_volume(n)) / 2^n`, rounded toward zero.
pub open spec fn bag_correction(m: nat, n: nat) -> int {
    trunc_div((2 * m + 1) * half_space(n) - 2 * m * shell_volume(n), pow2(n) as int)
}

pub proof fn lemma_binom_bound(n: nat, k: nat)
    ensures
        binom(n, k) <= pow2(n),
    decreases n,
{
    lemma2_to64();
    if k > 0 && n > 0 {
        lemma_binom_bound((n - 1) as nat, (k - 1) as nat);
        lemma_binom_bound((n - 1) as nat, k);
        lemma_pow2_unfold(n);
    } else if k == 0 {
        lemma_pow2_pos(n);
    }
}

pub proof fn lemma_ball_volume_bound(n: nat, r: nat)
    ensures
        ball_volume(n, r) <= (r + 1) * pow2(n),
    decreases r,
{
    lemma_binom_bound(n, r);
    let p = pow2(n);
    if r > 0 {
        let q = (r - 1) as nat;
        lemma_ball_volume_bound(n, q);
        assert((q + 1) * p + p == (r + 1) * p) by (nonlinear_arith)
            requires
                q + 1 == r,
        ;
    } else {
        assert(1 * p == p);
    }
}

/// `n` bits of the number zero.
pub fn zero_bits(width: usize) -> (r: Vec<bool>)
    ensures
        r@.len() == width,
        value(r@) == 0,
{
    let mut r: Vec<bool> = Vec::new();
    let mut i: usize = 0;
    while i < width
        invariant
            i <= width,
            r@.len() == i,
            forall|j: int| 0 <= j < i ==> !r@[j],
        decreases width - i,
    {
        r.push(false);
        i = i + 1;
    }
    proof {
        lemma_value_zero(r@);
    }
    r
}

/// `shell_volume(n)` in `width` bits, summed from the Pascal rows up to row `n`.
pub fn shell_volume_bits(n: usize, width: usize) -> (r: Vec<bool>)
    requires
        n < width,
        2 * n < width,
    ensures
        r@.len() == width,
        value(r@) == shell_volume(n as nat),
{
    let radius: usize = (n + 1) / 2;
    let ghost big = pow2(width as nat);
    proof {
        lemma_pow2_strictly_increases(n as nat, width as nat);
    }
    let mut row: Vec<Vec<bool>> = Vec::new();
    let mut r: usize = 0;
    while r <= radius
        invariant
            radius == (n + 1) / 2,
            n < width,
            r <= radius + 1,
            row@.len() == r,
            forall|j: int|
                0 <= j < r ==> (#[trigger] row@[j])@.len() == width && value(row@[j]@) == binom(
                    0,
                    j as nat,
                ),
        decreases radius + 1 - r,
    {
        if r == 0 {
            row.push(power_of_two_bits(0, width));
            proof {
                lemma2_to64();
            }
        } else {
            row.push(zero_bits(width));
        }
        r = r + 1;
    }
    let mut k: usize = 0;
    while k < n
        invariant
            radius == (n + 1) / 2,
            n < width,
            k <= n,
            pow2(n as nat) < pow2(width as nat),
            row@.len() == radius + 1,
            forall|j: int|
                0 <= j <= radius ==> (#[trigger] row@[j])@.len() == width && value(row@[j]@)
                    == binom(k as nat, j as nat),
        decreases n - k,
    {
        let mut next: Vec<Vec<bool>> = Vec::new();
        next.push(power_of_two_bits(0, width));
        proof {
            lemma2_to64();
        }
        let mut j: usize = 1;
        while j <= radius
            invariant
                radius == (n + 1) / 2,
                n < width,
                k < n,
                1 <= j <= radius + 1,
                pow2(n as nat) < pow2(width as nat),
                row@.len() == radius + 1,
                forall|i: int|
                    0 <= i <= radius ==> (#[trigger] row@[i])@.len() == width && value(row@[i]@)
                        == binom(k as nat, i as nat),
                next@.len() == j,
                forall|i: int|
                    0 <= i < j ==> (#[trigger] next@[i])@.len() == width && value(next@[i]@)
                        == binom((k + 1) as nat, i as nat),
            decreases radius + 1 - j,
        {
            proof {
                lemma_binom_bound((k + 1) as nat, j as nat);
                if k + 1 < n {
                    lemma_pow2_strictly_increases((k + 1) as nat, n as nat);
                }
                assert(binom((k + 1) as nat, j as nat) == binom(k as nat, (j - 1) as nat) + binom(
                    k as nat,
                    j as nat,
                ));
            }
            let entry = add_bits(&row[j - 1], &row[j]);
            next.push(entry);
            j = j + 1;
        }
        row = next;
        k = k + 1;
    }
    let mut acc = power_of_two_bits(0, width);
    proof {
        lemma2_to64();
    }
    let mut j: usize = 1;
    while j <= radius
        invariant
            radius == (n + 1) / 2,
            n < width,
            2 * n < width,
            1 <= j <= radius + 1,
            row@.len() == radius + 1,
            forall|i: int|
                0 <= i <= radius ==> (#[trigger] row@[i])@.len() == width && value(row@[i]@)
                    == binom(n as nat, i as nat),
            acc@.len() == width,
            value(acc@) == ball_volume(n as nat, (j - 1) as nat),
        decreases radius + 1 - j,
    {
        proof {
            lemma_ball_volume_bound(n as nat, j as nat);
            assert(j + 1 <= pow2(n as nat)) by {
                lemma_lt_pow2(n as nat);
            }
            assert((j + 1) * pow2(n as nat) <= pow2(n as nat) * pow2(n as nat)) by (nonlinear_arith)
                requires
                    j + 1 <= pow2(n as nat),
            ;
            lemma_pow2_adds(n as nat, n as nat);
            lemma_pow2_strictly_increases((n + n) as nat, width as nat);
        }
        acc = add_bits(&acc, &row[j]);
        j = j + 1;
    }
    acc
}

/// The bag correction for `m` features, read off `2m * shell_volume(n) + half_space(n)` held
/// in bits: its quotient and remainder by `2^n` settle the rounding toward zero.
pub fn correction_from_total(s: &Vec<bool>, n: usize, m: usize) -> (c: i128)
    requires
        1 <= n <= s@.len(),
        value(s@) == 2 * m * shell_volume(n as nat) + half_space(n as nat),
        value(s@) < pow2(n as nat) * pow2(100),
    ensures
        c == bag_correction(m as nat, n as nat),
        -0x40_0000_0000_0000_0000_0000_0000 <= c <= 0x40_0000_0000_0000_0000_0000_0000,
{
    let ghost total = value(s@) as int;
    let ghost p = pow2(n as nat) as int;
    let ghost h = half_space(n as nat) as int;
    let ghost vol = shell_volume(n as nat) as int;
    proof {
        lemma_value_skip(s@, n as nat);
        lemma_pow2_pos(n as nat);
        lemma_pow2_unfold(n as nat);
        lemma_fundamental_div_mod(total, p);
        lemma_mod_pos_bound(total, p);
        assert(total / p < pow2(100)) by (nonlinear_arith)
            requires
                total == p * (total / p) + total % p,
                total % p >= 0,
                total < p * pow2(100),
                p > 0,
        ;
        lemma_pow2_strictly_increases(100, 127);
        lemma2_to64();
        lemma2_to64_rest();
        lemma_pow2_adds(64, 36);
        assert(pow2(100) == 0x10_0000_0000_0000_0000_0000_0000);
    }
    let f = high_part(s, n);
    proof {
        assert(usize::MAX <= u64::MAX);
    }
    let nonzero = low_part_nonzero(s, n);
    let ghost q = f as int;
    let ghost rem = total % p;
    let ghost num = (2 * m + 1) * h - 2 * m * vol;
    proof {
        assert(num == (m + 1) * p - total) by (nonlinear_arith)
            requires
                num == (2 * m + 1) * h - 2 * m * vol,
                total == 2 * m * vol + h,
                p == 2 * h,
        ;
        assert(total == q * p + rem) by (nonlinear_arith)
            requires
                total == p * q + rem,
        ;
        assert(num == (m + 1 - q) * p - rem) by (nonlinear_arith)
            requires
                num == (m + 1) * p - total,
                total == q * p + rem,
        ;
    }
    let mi = m as i128;
    let fi = f as i128;
    if fi >= mi + 1 {
        proof {
            assert((m + 1 - q) * p <= 0) by (nonlinear_arith)
                requires
                    q >= m + 1,
                    p > 0,
            ;
            if num < 0 {
                assert(-num == (q - m - 1) * p + rem) by (nonlinear_arith)
                    requires
                        num == (m + 1 - q) * p - rem,
                ;
                lemma_fundamental_div_mod_converse(-num, p, q - m - 1, rem);
            } else {
                assert(num == 0);
                assert(q == m + 1 && rem == 0) by (nonlinear_arith)
                    requires
                        0 == (m + 1 - q) * p - rem,
                        (m + 1 - q) * p <= 0,
                        0 <= rem < p,
                        p > 0,
                ;
            }
        }
        mi + 1 - fi
    } else if nonzero {
        proof {
            assert(num == (m - q) * p + (p - rem)) by (nonlinear_arith)
                requires
                    num == (m + 1 - q) * p - rem,
            ;
            assert((m - q) * p >= 0) by (nonlinear_arith)
                requires
                    q <= m,
                    p > 0,
            ;
            lemma_fundamental_div_mod_converse(num, p, m - q, p - rem);
        }
        mi - fi
    } else {
        proof {
            assert((m + 1 - q) * p >= 0) by (nonlinear_arith)
                requires
                    q <= m,
                    p > 0,
            ;
            lemma_fundamental_div_mod_converse(num, p, m + 1 - q, 0);
        }
        mi + 1 - fi
    }
}

/// The running total that a bag of up to `2^64` features builds stays below `2^(n + 100)`.
pub proof fn lemma_total_bound(n: nat, m: nat)
    requires
        1 <= n <= 0xFFFF_FFFF,
        m <= 0xFFFF_FFFF_FFFF_FFFF,
    ensures
        2 * m * shell_volume(n) + half_space(n) < pow2(n) * pow2(100),
        2 * shell_volume(n) < pow2(n) * pow2(100),
{
    let r = (n + 1) / 2;
    let p = pow2(n);
    let v = shell_volume(n);
    lemma_ball_volume_bound(n, r);
    lemma_pow2_pos(n);
    lemma_pow2_unfold(n);
    lemma2_to64();
    lemma2_to64_rest();
    lemma_pow2_adds(64, 36);
    assert(pow2(100) == 0x10_0000_0000_0000_0000_0000_0000);
    assert(v <= 0x1_0000_0000 * p) by (nonlinear_arith)
        requires
            v <= (r + 1) * p,
            r + 1 <= 0x1_0000_0000,
            p > 0,
    ;
    assert(2 * m * v <= 0x2_0000_0000_0000_0000_0000_0000 * p) by (nonlinear_arith)
        requires
            v <= 0x1_0000_0000 * p,
            m <= 0xFFFF_FFFF_FFFF_FFFF,
    ;
    assert(2 * v <= 0x2_0000_0000 * p) by (nonlinear_arith)
        requires
            v <= 0x1_0000_0000 * p,
    ;
    assert(p * pow2(100) == 0x10_0000_0000_0000_0000_0000_0000 * p) by (nonlinear_arith)
        requires
            pow2(100) == 0x10_0000_0000_0000_0000_0000_0000,
    ;
}

/// The correction `trunc(0.5 - m * imbalance(n))` that a bag of `m` features of `n` bits asks.
pub fn correction_for_bag(n: usize, m: usize) -> (c: i128)
    requires
        1 <= n <= u32::MAX,
        2 * n + 100 <= usize::MAX,
    ensures
        c == bag_correction(m as nat, n as nat),
{
    let width = 2 * n + 100;
    proof {
        lemma_total_bound(n as nat, 0);
        lemma_pow2_adds(n as nat, 100);
        lemma_pow2_strictly_increases((n + 100) as nat, width as nat);
        assert(usize::MAX <= u64::MAX);
    }
    let volume = shell_volume_bits(n, width);
    let double = add_bits(&volume, &volume);
    let mut total = power_of_two_bits(n - 1, width);
    let mut j: usize = 0;
    assert(2 * j * shell_volume(n as nat) == 0) by (nonlinear_arith)
        requires
            j == 0,
    ;
    while j < m
        invariant
            1 <= n <= u32::MAX,
            j <= m,
            m <= u64::MAX,
            pow2(n as nat) * pow2(100) < pow2(width as nat),
            double@.len() == width,
            value(double@) == 2 * shell_volume(n as nat),
            total@.len() == width,
            value(total@) == 2 * j * shell_volume(n as nat) + half_space(n as nat),
        decreases m - j,
    {
        proof {
            lemma_total_bound(n as nat, (j + 1) as nat);
            assert(2 * (j + 1) * shell_volume(n as nat) == 2 * j * shell_volume(n as nat) + 2
                * shell_volume(n as nat)) by (nonlinear_arith);
        }
        total = add_bits(&total, &double);
        j = j + 1;
    }
    proof {
        lemma_total_bound(n as nat, m as nat);
    }
    correction_from_total(&total, n, m)
}

pub proof fn lemma_binom_beyond(n: nat, k: nat)
    requires
        k > n,
    ensures
        binom(n, k) == 0,
    decreases n,
{
    if n > 0 {
        lemma_binom_beyond((n - 1) as nat, (k - 1) as nat);
        lemma_binom_beyond((n - 1) as nat, k);
    }
}

/// Pascal's rule for balls: `V(n, r) = V(n - 1, r) + V(n - 1, r - 1)`.
pub proof fn lemma_ball_pascal(n: nat, r: nat)
    requires
        n >= 1,
        r >= 1,
    ensures
        ball_volume(n, r) == ball_volume((n - 1) as nat, r) + ball_volume(
            (n - 1) as nat,
            (r - 1) as nat,
        ),
    decreases r,
{
    let m = (n - 1) as nat;
    assert(binom(n, r) == binom(m, (r - 1) as nat) + binom(m, r));
    assert(ball_volume(n, r) == ball_volume(n, (r - 1) as nat) + binom(n, r));
    assert(ball_volume(m, r) == ball_volume(m, (r - 1) as nat) + binom(m, r));
    if r > 1 {
        lemma_ball_pascal(n, (r - 1) as nat);
        assert(ball_volume(m, (r - 1) as nat) == ball_volume(m, (r - 2) as nat) + binom(
            m,
            (r - 1) as nat,
        ));
    } else {
        assert(ball_volume(n, 0) == 1);
        assert(ball_volume(m, 0) == 1);
    }
}

/// The ball of radius `n` is the whole `n`-bit space.
pub proof fn lemma_ball_whole(n: nat)
    ensures
        ball_volume(n, n) == pow2(n),
    decreases n,
{
    lemma2_to64();
    if n > 0 {
        lemma_ball_whole((n - 1) as nat);
        lemma_ball_pascal(n, n);
        lemma_binom_beyond((n - 1) as nat, n);
        assert(ball_volume((n - 1) as nat, n) == ball_volume((n - 1) as nat, (n - 1) as nat));
        lemma_pow2_unfold(n);
    }
}

pub proof fn lemma_ball_monotone(n: nat, r: nat, s: nat)
    requires
        r <= s,
    ensures
        ball_volume(n, r) <= ball_volume(n, s),
    decreases s,
{
    if r < s {
        lemma_ball_monotone(n, r, (s - 1) as nat);
    }
}

/// The shell volume is at most the whole space, so the imbalance is at most one.
pub proof fn lemma_shell_volume_bound(n: nat)
    requires
        n >= 1,
    ensures
        shell_volume(n) <= pow2(n),
        pow2(n) == 2 * half_space(n),
{
    lemma_ball_monotone(n, (n + 1) / 2, n);
    lemma_ball_whole(n);
    lemma_pow2_unfold(n);
}

/// With votes `+k` or `-k` from `k >= 1` equal features, the corrected vote is positive
/// exactly when the votes are.
pub proof fn lemma_corrected_sign(k: nat, n: nat, within: bool)
    requires
        k >= 1,
        n >= 1,
    ensures
        ((if within { k as int } else { -k }) + bag_correction(k, n) > 0) == within,
{
    lemma_shell_volume_bound(n);
    lemma_pow2_pos(n);
    let h = half_space(n) as int;
    let p = pow2(n) as int;
    let v = shell_volume(n) as int;
    let num = (2 * k + 1) * h - 2 * k * v;
    assert(num > -(k * p)) by (nonlinear_arith)
        requires
            num == (2 * k + 1) * h - 2 * k * v,
            v <= p,
            p == 2 * h,
            h > 0,
            k >= 1,
    ;
    assert(num < (k + 1) * p) by (nonlinear_arith)
        requires
            num == (2 * k + 1) * h - 2 * k * v,
            v >= 0,
            p == 2 * h,
            h > 0,
    ;
    let c = bag_correction(k, n);
    if num >= 0 {
        lemma_div_bounds(num, p, (k + 1) as int);
    } else {
        lemma_div_bounds(-num, p, k as int);
        assert(-num < k * p);
    }
    assert(-k < c <= k);
}

/// An empty bag needs no correction: `trunc(0.5) = 0`.
pub proof fn lemma_empty_bag_correction(n: nat)
    requires
        n >= 1,
    ensures
        bag_correction(0, n) == 0,
{
    lemma_pow2_unfold(n);
    lemma_pow2_pos((n - 1) as nat);
    let h = half_space(n) as int;
    let v = shell_volume(n);
    let z: nat = 0;
    assert((2 * z + 1) * h - 2 * z * v == h) by (nonlinear_arith)
        requires
            z == 0,
    ;
    lemma_fundamental_div_mod_converse(h, 2 * h, 0, h);
}

proof fn lemma_div_bounds(a: int, p: int, k: int)
    requires
        a >= 0,
        p > 0,
        a < k * p,
    ensures
        0 <= a / p < k,
{
    lemma_fundamental_div_mod(a, p);
    lemma_mod_pos_bound(a, p);
    assert(0 <= a / p < k) by (nonlinear_arith)
        requires
            a == p * (a / p) + a % p,
            0 <= a % p < p,
            a < k * p,
            a >= 0,
            p > 0,
    ;
}

pub proof fn lemma_lt_pow2(n: nat)
    ensures
        n < pow2(n),
    decreases n,
{
    lemma2_to64();
    if n > 1 {
        lemma_lt_pow2((n - 1) as nat);
        lemma_pow2_unfold(n);
    }
}

} // verus!
