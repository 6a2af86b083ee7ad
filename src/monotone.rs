//! Over even bit widths the imbalance `shell_volume(n) / half_space(n) - 1` is positive and
//! shrinks as the width grows: it equals `C(n, n / 2) / 2^n`.
use vstd::prelude::*;
use vstd::arithmetic::power2::{lemma2_to64, lemma_pow2_adds, lemma_pow2_unfold, pow2};
use crate::imbalance::{ball_volume, binom, half_space, lemma_binom_beyond, shell_volume};

verus! {

pub proof fn lemma_binom_diagonal(n: nat)
    ensures
        binom(n, n) == 1,
    decreases n,
{
    if n > 0 {
        lemma_binom_diagonal((n - 1) as nat);
        lemma_binom_beyond((n - 1) as nat, n);
    }
}

pub proof fn lemma_binom_positive(n: nat, r: nat)
    requires
        r <= n,
    ensures
        binom(n, r) >= 1,
    decreases n,
{
    if r > 0 {
        lemma_binom_positive((n - 1) as nat, (r - 1) as nat);
    }
}

/// `C(n, r) = C(n, n - r)`.
pub proof fn lemma_binom_symmetric(n: nat, r: nat)
    requires
        r <= n,
    ensures
        binom(n, r) == binom(n, (n - r) as nat),
    decreases n,
{
    lemma_binom_diagonal(n);
    if 0 < r < n {
        let m = (n - 1) as nat;
        lemma_binom_symmetric(m, (r - 1) as nat);
        lemma_binom_symmetric(m, r);
        assert((m - (r - 1)) as nat == (n - r) as nat);
        assert(binom(n, (n - r) as nat) == binom(m, (n - r - 1) as nat) + binom(m, (n - r) as nat));
    }
}

/// The balls of radius `n - j - 1` and `j` together cover `n`-bit space once.
pub proof fn lemma_ball_reflect(n: nat, j: nat)
    requires
        j < n,
    ensures
        ball_volume(n, n) == ball_volume(n, (n - j - 1) as nat) + ball_volume(n, j),
    decreases j,
{
    lemma_binom_diagonal(n);
    if j > 0 {
        lemma_ball_reflect(n, (j - 1) as nat);
        lemma_binom_symmetric(n, j);
        assert(ball_volume(n, (n - j) as nat) == ball_volume(n, (n - j - 1) as nat) + binom(
            n,
            (n - j) as nat,
        ));
    } else {
        assert(ball_volume(n, n) == ball_volume(n, (n - 1) as nat) + binom(n, n));
    }
}

/// `2 * shell_volume(2k) = 2^(2k) + C(2k, k)`.
pub proof fn lemma_even_shell(k: nat)
    requires
        k >= 1,
    ensures
        2 * shell_volume(2 * k) == pow2(2 * k) + binom(2 * k, k),
{
    let n = 2 * k;
    assert((n + 1) / 2 == k);
    crate::imbalance::lemma_ball_whole(n);
    lemma_ball_reflect(n, (k - 1) as nat);
    assert((n - (k - 1) - 1) as nat == k);
}

/// `r * C(n, r) = n * C(n - 1, r - 1)`.
pub proof fn lemma_binom_absorb(n: nat, r: nat)
    requires
        n >= 1,
        r >= 1,
    ensures
        r * binom(n, r) == n * binom((n - 1) as nat, (r - 1) as nat),
    decreases n,
{
    if n == 1 {
        lemma_binom_diagonal(1);
        assert(binom(0, 0) == 1);
        if r > 1 {
            lemma_binom_beyond(1, r);
            lemma_binom_beyond(0, (r - 1) as nat);
            assert(r * binom(n, r) == n * binom((n - 1) as nat, (r - 1) as nat)) by (nonlinear_arith)
                requires
                    binom(n, r) == 0,
                    binom((n - 1) as nat, (r - 1) as nat) == 0,
            ;
        } else {
            assert(r * binom(n, r) == n * binom((n - 1) as nat, (r - 1) as nat)) by (nonlinear_arith)
                requires
                    r == 1,
                    n == 1,
                    binom(n, r) == 1,
                    binom((n - 1) as nat, (r - 1) as nat) == 1,
            ;
        }
    } else {
        let m = (n - 1) as nat;
        lemma_binom_absorb(m, r);
        if r == 1 {
            assert(binom(n, 1) == binom(m, 0) + binom(m, 1));
            assert(binom((m - 1) as nat, 0) == 1);
            assert(binom(m, 1) == m) by (nonlinear_arith)
                requires
                    1 * binom(m, 1) == m * binom((m - 1) as nat, 0),
                    binom((m - 1) as nat, 0) == 1,
            ;
            assert(r * binom(n, r) == n * binom(m, 0)) by (nonlinear_arith)
                requires
                    r == 1,
                    binom(n, 1) == binom(m, 0) + binom(m, 1),
                    binom(m, 1) == m,
                    binom(m, 0) == 1,
                    n == m + 1,
            ;
        } else {
            lemma_binom_absorb(m, (r - 1) as nat);
            let a = binom(m, (r - 1) as nat);
            let b = binom(m, r);
            let c = binom((m - 1) as nat, (r - 2) as nat);
            let d = binom((m - 1) as nat, (r - 1) as nat);
            assert(binom(n, r) == a + b);
            assert(a == c + d);
            assert(r * binom(n, r) == n * a) by (nonlinear_arith)
                requires
                    binom(n, r) == a + b,
                    a == c + d,
                    r * b == m * d,
                    (r - 1) * a == m * c,
                    n == m + 1,
            ;
        }
    }
}

/// `(k + 1) * C(2k + 2, k + 1) = 2 * (2k + 1) * C(2k, k)`.
pub proof fn lemma_central_step(k: nat)
    ensures
        (k + 1) * binom(2 * k + 2, k + 1) == 2 * (2 * k + 1) * binom(2 * k, k),
{
    lemma_binom_absorb(2 * k + 2, k + 1);
    lemma_binom_symmetric(2 * k + 1, k);
    lemma_binom_absorb(2 * k + 1, k + 1);
    let a = binom(2 * k + 2, k + 1);
    let b = binom(2 * k + 1, k);
    let c = binom(2 * k, k);
    assert((2 * k + 2 - 1) as nat == 2 * k + 1);
    assert((2 * k + 1 - (k)) as nat == k + 1);
    assert((k + 1) * a == 2 * (2 * k + 1) * c) by (nonlinear_arith)
        requires
            (k + 1) * a == (2 * k + 2) * b,
            (k + 1) * b == (2 * k + 1) * c,
    ;
}

/// `C(2k2, k2) * 4^k1 < C(2k1, k1) * 4^k2` for `k1 < k2`.
proof fn lemma_central_ratio(k1: nat, k2: nat)
    requires
        k1 < k2,
    ensures
        binom(2 * k2, k2) * pow2(2 * k1) < binom(2 * k1, k1) * pow2(2 * k2),
    decreases k2,
{
    let k = (k2 - 1) as nat;
    lemma_central_step(k);
    lemma_binom_positive(2 * k, k);
    let c = binom(2 * k, k);
    let d = binom(2 * k2, k2);
    assert(2 * k + 2 == 2 * k2);
    assert(d < 4 * c) by (nonlinear_arith)
        requires
            (k + 1) * d == 2 * (2 * k + 1) * c,
            c >= 1,
    ;
    lemma_pow2_adds(2 * k, 2);
    lemma2_to64();
    assert(pow2(2 * k2) == pow2(2 * k) * 4);
    let base = pow2(2 * k1);
    vstd::arithmetic::power2::lemma_pow2_pos(2 * k1);
    if k1 < k {
        lemma_central_ratio(k1, k);
        assert(d * base < binom(2 * k1, k1) * pow2(2 * k2)) by (nonlinear_arith)
            requires
                d < 4 * c,
                c * base < binom(2 * k1, k1) * pow2(2 * k),
                pow2(2 * k2) == pow2(2 * k) * 4,
                base > 0,
        ;
    } else {
        vstd::arithmetic::power2::lemma_pow2_pos(2 * k1);
        assert(d * base < c * pow2(2 * k2)) by (nonlinear_arith)
            requires
                d < 4 * c,
                pow2(2 * k2) == base * 4,
                base > 0,
        ;
    }
}

/// Over even bit widths `2 <= n1 < n2`, the imbalance
/// `shell_volume(n) / half_space(n) - 1` is positive and strictly smaller at `n2`
/// than at `n1` (stated with the fractions cross-multiplied).
pub proof fn lemma_imbalance_decreasing(n1: nat, n2: nat)
    requires
        2 <= n1 < n2,
        n1 % 2 == 0,
        n2 % 2 == 0,
    ensures
        shell_volume(n1) > half_space(n1),
        shell_volume(n2) > half_space(n2),
        (shell_volume(n2) - half_space(n2)) * half_space(n1) < (shell_volume(n1) - half_space(
            n1,
        )) * half_space(n2),
{
    let k1 = n1 / 2;
    let k2 = n2 / 2;
    lemma_even_shell(k1);
    lemma_even_shell(k2);
    lemma_binom_positive(n1, k1);
    lemma_binom_positive(n2, k2);
    lemma_pow2_unfold(n1);
    lemma_pow2_unfold(n2);
    lemma_central_ratio(k1, k2);
    let c1 = binom(n1, k1);
    let c2 = binom(n2, k2);
    let h1 = half_space(n1);
    let h2 = half_space(n2);
    let v1 = shell_volume(n1);
    let v2 = shell_volume(n2);
    assert(2 * (v2 - h2) * (2 * h1) < 2 * (v1 - h1) * (2 * h2)) by (nonlinear_arith)
        requires
            2 * v1 == 2 * h1 + c1,
            2 * v2 == 2 * h2 + c2,
            c2 * (2 * h1) < c1 * (2 * h2),
    ;
    assert((v2 - h2) * h1 < (v1 - h1) * h2) by (nonlinear_arith)
        requires
            2 * (v2 - h2) * (2 * h1) < 2 * (v1 - h1) * (2 * h2),
    ;
}

} // verus!
