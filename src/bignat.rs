//! Natural numbers of any size, held as little-endian sequences of bits.
use vstd::prelude::*;
use vstd::arithmetic::power2::*;
use vstd::arithmetic::div_mod::lemma_fundamental_div_mod_converse;
use vstd::arithmetic::div_mod::lemma_div_is_ordered_by_denominator;

verus! {

pub open spec fn bit_value(b: bool) -> nat {
    if b {
        1
    } else {
        0
    }
}

/// The number that a little-endian bit sequence stands for.
pub open spec fn value(s: Seq<bool>) -> nat
    decreases s.len(),
{
    if s.len() == 0 {
        0
    } else {
        bit_value(s[0]) + 2 * value(s.skip(1))
    }
}

pub proof fn lemma_value_push(s: Seq<bool>, b: bool)
    ensures
        value(s.push(b)) == value(s) + bit_value(b) * pow2(s.len()),
    decreases s.len(),
{
    lemma2_to64();
    if s.len() > 0 {
        let t = s.skip(1);
        assert(s.push(b).skip(1) =~= t.push(b));
        assert(s.push(b)[0] == s[0]);
        assert(value(s.push(b)) == bit_value(s[0]) + 2 * value(t.push(b)));
        lemma_value_push(t, b);
        lemma_pow2_unfold(s.len());
        assert(2 * (value(t) + bit_value(b) * pow2(t.len())) == 2 * value(t) + bit_value(b) * (2
            * pow2(t.len()))) by (nonlinear_arith);
    } else {
        assert(s.push(b).skip(1) =~= Seq::<bool>::empty());
        assert(value(s.push(b)) == bit_value(b) + 2 * value(Seq::<bool>::empty()));
    }
}

pub proof fn lemma_value_bound(s: Seq<bool>)
    ensures
        value(s) < pow2(s.len()),
    decreases s.len(),
{
    lemma2_to64();
    if s.len() > 0 {
        lemma_value_bound(s.skip(1));
        lemma_pow2_unfold(s.len());
    }
}

pub proof fn lemma_value_split(s: Seq<bool>, i: nat)
    requires
        i <= s.len(),
    ensures
        value(s) == value(s.take(i as int)) + pow2(i) * value(s.skip(i as int)),
    decreases i,
{
    lemma2_to64();
    if i == 0 {
        assert(s.take(0) =~= Seq::<bool>::empty());
        assert(s.skip(0) =~= s);
    } else {
        let t = s.skip(1);
        lemma_value_split(t, (i - 1) as nat);
        assert(s.take(i as int).skip(1) =~= t.take(i - 1));
        assert(s.skip(i as int) =~= t.skip(i - 1));
        lemma_pow2_unfold(i);
        assert(s.take(i as int)[0] == s[0]);
        assert(value(s.take(i as int)) == bit_value(s[0]) + 2 * value(t.take(i - 1)));
        assert(value(s) == bit_value(s[0]) + 2 * value(t.take(i - 1)) + pow2(i) * value(
            t.skip(i - 1),
        )) by (nonlinear_arith)
            requires
                value(s) == bit_value(s[0]) + 2 * value(t),
                value(t) == value(t.take(i - 1)) + pow2((i - 1) as nat) * value(t.skip(i - 1)),
                pow2(i) == 2 * pow2((i - 1) as nat),
        ;
    }
}

/// The bits from position `i` on stand for the whole number divided by `2^i`.
pub proof fn lemma_value_skip(s: Seq<bool>, i: nat)
    requires
        i <= s.len(),
    ensures
        value(s.skip(i as int)) == value(s) / pow2(i),
        value(s.take(i as int)) == value(s) % pow2(i),
{
    lemma_value_split(s, i);
    lemma_value_bound(s.take(i as int));
    lemma_pow2_pos(i);
    lemma_fundamental_div_mod_converse(
        value(s) as int,
        pow2(i) as int,
        value(s.skip(i as int)) as int,
        value(s.take(i as int)) as int,
    );
}

pub proof fn lemma_value_zero(s: Seq<bool>)
    ensures
        (value(s) == 0) == (forall|j: int| 0 <= j < s.len() ==> !s[j]),
    decreases s.len(),
{
    if s.len() > 0 {
        lemma_value_zero(s.skip(1));
        if value(s) == 0 {
            assert forall|j: int| 0 <= j < s.len() implies !s[j] by {
                if j > 0 {
                    assert(s.skip(1)[j - 1] == s[j]);
                }
            }
        } else if forall|j: int| 0 <= j < s.len() ==> !s[j] {
            assert forall|j: int| 0 <= j < s.skip(1).len() implies !s.skip(1)[j] by {
                assert(s.skip(1)[j] == s[j + 1]);
            }
        }
    }
}

/// Sum of two numbers of the same width, whose sum fits in that width.
pub fn add_bits(a: &Vec<bool>, b: &Vec<bool>) -> (r: Vec<bool>)
    requires
        a@.len() == b@.len(),
        value(a@) + value(b@) < pow2(a@.len()),
    ensures
        r@.len() == a@.len(),
        value(r@) == value(a@) + value(b@),
{
    let mut r: Vec<bool> = Vec::new();
    let mut carry = false;
    let mut i: usize = 0;
    while i < a.len()
        invariant
            a@.len() == b@.len(),
            i <= a@.len(),
            r@.len() == i,
            value(a@.take(i as int)) + value(b@.take(i as int)) == value(r@) + bit_value(carry)
                * pow2(i as nat),
        decreases a@.len() - i,
    {
        let x = a[i];
        let y = b[i];
        let sum = x != (y != carry);
        let next = (x && y) || (x && carry) || (y && carry);
        proof {
            assert(a@.take(i + 1) =~= a@.take(i as int).push(x));
            assert(b@.take(i + 1) =~= b@.take(i as int).push(y));
            lemma_value_push(a@.take(i as int), x);
            lemma_value_push(b@.take(i as int), y);
            lemma_value_push(r@, sum);
            lemma_pow2_unfold((i + 1) as nat);
            assert(bit_value(x) + bit_value(y) + bit_value(carry) == bit_value(sum) + 2
                * bit_value(next));
            assert((bit_value(x) + bit_value(y) + bit_value(carry)) * pow2(i as nat) == (
            bit_value(sum) + 2 * bit_value(next)) * pow2(i as nat));
            assert(bit_value(next) * pow2((i + 1) as nat) == 2 * bit_value(next) * pow2(i as nat))
                by (nonlinear_arith)
                requires
                    pow2((i + 1) as nat) == 2 * pow2(i as nat),
            ;
            assert((bit_value(x) + bit_value(y) + bit_value(carry)) * pow2(i as nat) == bit_value(
                x,
            ) * pow2(i as nat) + bit_value(y) * pow2(i as nat) + bit_value(carry) * pow2(i as nat))
                by (nonlinear_arith);
            assert((bit_value(sum) + 2 * bit_value(next)) * pow2(i as nat) == bit_value(sum)
                * pow2(i as nat) + 2 * bit_value(next) * pow2(i as nat)) by (nonlinear_arith);
        }
        r.push(sum);
        carry = next;
        i = i + 1;
    }
    proof {
        assert(a@.take(a@.len() as int) =~= a@);
        assert(b@.take(b@.len() as int) =~= b@);
        if carry {
            assert(value(r@) + pow2(a@.len()) >= pow2(a@.len()));
        }
    }
    r
}

/// The number `2^k` in `width` bits.
pub fn power_of_two_bits(k: usize, width: usize) -> (r: Vec<bool>)
    requires
        k < width,
    ensures
        r@.len() == width,
        value(r@) == pow2(k as nat),
{
    let mut r: Vec<bool> = Vec::new();
    let mut i: usize = 0;
    while i < width
        invariant
            k < width,
            i <= width,
            r@.len() == i,
            value(r@) == (if i > k { pow2(k as nat) } else { 0 }),
        decreases width - i,
    {
        proof {
            lemma_value_push(r@, i == k);
        }
        r.push(i == k);
        i = i + 1;
    }
    r
}

proof fn lemma_pow2_127()
    ensures
        pow2(127) == 0x8000_0000_0000_0000_0000_0000_0000_0000,
{
    lemma2_to64();
    lemma2_to64_rest();
    lemma_pow2_adds(64, 63);
}

/// `value(s) / 2^n`, where that quotient is below `2^127`.
pub fn high_part(s: &Vec<bool>, n: usize) -> (r: u128)
    requires
        n <= s@.len(),
        value(s@) / pow2(n as nat) < pow2(127),
    ensures
        r == value(s@) / pow2(n as nat),
{
    let mut acc: u128 = 0;
    let mut i: usize = s.len();
    proof {
        assert(s@.skip(s@.len() as int) =~= Seq::<bool>::empty());
    }
    while i > n
        invariant
            n <= i <= s@.len(),
            value(s@) / pow2(n as nat) < pow2(127),
            acc == value(s@.skip(i as int)),
        decreases i,
    {
        i = i - 1;
        proof {
            assert(s@.skip(i as int).skip(1) =~= s@.skip(i + 1));
            lemma_value_skip(s@, i as nat);
            lemma_value_skip(s@, n as nat);
            lemma_pow2_pos(n as nat);
            if i > n {
                lemma_pow2_strictly_increases(n as nat, i as nat);
            }
            lemma_div_is_ordered_by_denominator(
                value(s@) as int,
                pow2(n as nat) as int,
                pow2(i as nat) as int,
            );
            lemma_pow2_127();
            assert(s@.skip(i as int)[0] == s@[i as int]);
        }
        acc = 2 * acc + if s[i] { 1u128 } else { 0u128 };
    }
    proof {
        lemma_value_skip(s@, n as nat);
    }
    acc
}

/// Whether any of the first `n` bits is set, that is whether `2^n` does not divide the number.
pub fn low_part_nonzero(s: &Vec<bool>, n: usize) -> (r: bool)
    requires
        n <= s@.len(),
    ensures
        r == (value(s@) % pow2(n as nat) != 0),
{
    let mut i: usize = 0;
    while i < n
        invariant
            n <= s@.len(),
            i <= n,
            forall|j: int| 0 <= j < i ==> !s@[j],
        decreases n - i,
    {
        if s[i] {
            proof {
                lemma_value_zero(s@.take(n as int));
                lemma_value_skip(s@, n as nat);
                assert(s@.take(n as int)[i as int]);
            }
            return true;
        }
        i = i + 1;
    }
    proof {
        lemma_value_zero(s@.take(n as int));
        lemma_value_skip(s@, n as nat);
    }
    false
}

} // verus!
