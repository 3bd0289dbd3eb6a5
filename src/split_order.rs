//! The split-order key transform: bit reversal of 64-bit keys, and the facts about it
//! that make a bucket's sentinel sort before every key of that bucket.
use vstd::arithmetic::div_mod::{
    lemma_div_denominator, lemma_fundamental_div_mod_converse, lemma_mod_breakdown,
};
use vstd::prelude::*;

verus! {

/// The low `n` bits of `x`, in reverse order: bit `i` of `x` becomes bit `n - 1 - i`.
pub open spec fn rev(x: nat, n: nat) -> nat
    decreases n,
{
    if n == 0 {
        0
    } else {
        (x % 2) * pow2((n - 1) as nat) + rev(x / 2, (n - 1) as nat)
    }
}

/// `2^n`.
pub open spec fn pow2(n: nat) -> nat
    decreases n,
{
    if n == 0 {
        1
    } else {
        2 * pow2((n - 1) as nat)
    }
}

pub proof fn lemma_pow2_pos(n: nat)
    ensures
        pow2(n) >= 1,
    decreases n,
{
    if n > 0 {
        lemma_pow2_pos((n - 1) as nat);
    }
}

pub proof fn lemma_pow2_mono(a: nat, b: nat)
    requires
        a <= b,
    ensures
        pow2(a) <= pow2(b),
    decreases b,
{
    if a < b {
        lemma_pow2_mono(a, (b - 1) as nat);
        lemma_pow2_pos((b - 1) as nat);
    }
}

/// The power of two with `2^a <= i < 2^(a+1)` is unique.
pub proof fn lemma_pow2_floor_unique(i: nat, a: nat, b: nat)
    requires
        pow2(a) <= i < 2 * pow2(a),
        pow2(b) <= i < 2 * pow2(b),
    ensures
        a == b,
{
    if a < b {
        lemma_pow2_mono(a + 1, b);
        assert(pow2(a + 1) == 2 * pow2(a));
    } else if b < a {
        lemma_pow2_mono(b + 1, a);
        assert(pow2(b + 1) == 2 * pow2(b));
    }
}

/// Reversing the bits of zero gives zero.
pub proof fn lemma_rev_zero(n: nat)
    ensures
        rev(0, n) == 0,
    decreases n,
{
    if n > 0 {
        lemma_rev_zero((n - 1) as nat);
        assert((0nat % 2) * pow2((n - 1) as nat) == 0);
    }
}

/// A reversal of `n` bits is an `n`-bit number.
pub proof fn lemma_rev_bound(x: nat, n: nat)
    ensures
        rev(x, n) < pow2(n),
    decreases n,
{
    if n > 0 {
        let p = pow2((n - 1) as nat);
        lemma_rev_bound(x / 2, (n - 1) as nat);
        if x % 2 == 0 {
            assert((x % 2) * p == 0);
        } else {
            assert((x % 2) * p == p) by (nonlinear_arith)
                requires
                    x % 2 != 0,
                    x % 2 < 2,
            ;
        }
    }
}

/// Bit reversal is injective on `n`-bit numbers.
pub proof fn lemma_rev_injective(x: nat, y: nat, n: nat)
    requires
        x < pow2(n),
        y < pow2(n),
        rev(x, n) == rev(y, n),
    ensures
        x == y,
    decreases n,
{
    if n > 0 {
        let p = pow2((n - 1) as nat);
        lemma_rev_bound(x / 2, (n - 1) as nat);
        lemma_rev_bound(y / 2, (n - 1) as nat);
        if x % 2 == 0 {
            assert((x % 2) * p == 0);
        } else {
            assert((x % 2) * p == p) by (nonlinear_arith)
                requires
                    x % 2 != 0,
                    x % 2 < 2,
            ;
        }
        if y % 2 == 0 {
            assert((y % 2) * p == 0);
        } else {
            assert((y % 2) * p == p) by (nonlinear_arith)
                requires
                    y % 2 != 0,
                    y % 2 < 2,
            ;
        }
        assert(x % 2 == y % 2);
        lemma_rev_injective(x / 2, y / 2, (n - 1) as nat);
    }
}

/// A number whose top bit (of `n`) is clear reverses to an even number.
pub proof fn lemma_rev_even(x: nat, n: nat)
    requires
        n >= 1,
        x < pow2((n - 1) as nat),
    ensures
        rev(x, n) % 2 == 0,
    decreases n,
{
    if n == 1 {
        lemma_rev_zero(0);
    } else {
        let q = pow2((n - 2) as nat);
        lemma_rev_even(x / 2, (n - 1) as nat);
        if x % 2 == 0 {
            assert((x % 2) * (2 * q) == 0);
        } else {
            assert((x % 2) * (2 * q) == 2 * q);
        }
    }
}

/// Keeping only the low `j` bits of `x` can only lower its reversal: a bucket's sentinel
/// sorts no later than any key that falls in that bucket.
pub proof fn lemma_rev_prefix(x: nat, j: nat, n: nat)
    requires
        j <= n,
    ensures
        rev(x % pow2(j), n) <= rev(x, n),
    decreases n,
{
    if j == 0 {
        lemma_rev_zero(n);
    } else {
        let q = pow2((j - 1) as nat);
        let p = pow2((n - 1) as nat);
        lemma_pow2_pos((j - 1) as nat);
        lemma_mod_breakdown(x as int, 2, q as int);
        let y = x % pow2(j);
        assert(y == 2 * ((x / 2) % q) + x % 2);
        assert(y % 2 == x % 2);
        assert(y / 2 == (x / 2) % q);
        lemma_rev_prefix(x / 2, (j - 1) as nat, (n - 1) as nat);
    }
}

/// `i - 2^k` is `i % 2^k` when `2^k <= i < 2^(k+1)`.
pub proof fn lemma_sub_is_mod(i: nat, k: nat)
    requires
        pow2(k) <= i < 2 * pow2(k),
    ensures
        (i - pow2(k)) as nat == i % pow2(k),
{
    lemma_pow2_pos(k);
    lemma_fundamental_div_mod_converse(i as int, pow2(k) as int, 1, i - pow2(k));
}

/// The largest power of two used here, as literals.
pub proof fn lemma_pow2_63_64()
    ensures
        pow2(63) == 0x8000_0000_0000_0000,
        pow2(64) == 0x1_0000_0000_0000_0000,
{
    reveal_with_fuel(pow2, 65);
}

/// A user key keeps its top bit clear.
pub open spec fn valid_key(key: usize) -> bool {
    key < 0x8000_0000_0000_0000
}

/// Whether `key` may be stored in the map: its top bit must be clear. Callers that cannot
/// show this statically test it before each map operation.
pub fn is_valid_key(key: usize) -> (r: bool)
    ensures
        r == valid_key(key),
{
    let x = key as u64;
    assert(x >> 63 == 0 <==> x < 0x8000_0000_0000_0000) by (bit_vector);
    x >> 63 == 0
}

/// The list key of the sentinel that heads bucket `index`.
pub open spec fn sentinel_key(index: nat) -> nat {
    rev(index, 64)
}

/// The list key of the data node that holds user key `key`: its reversal with the low bit set.
pub open spec fn regular_key(key: nat) -> nat {
    rev(key, 64) + 1
}

/// Distinct user keys have distinct data-node keys.
pub proof fn lemma_regular_key_injective(a: usize, b: usize)
    requires
        valid_key(a),
        valid_key(b),
        regular_key(a as nat) == regular_key(b as nat),
    ensures
        a == b,
{
    lemma_pow2_63_64();
    lemma_rev_injective(a as nat, b as nat, 64);
}

/// Reversing one more bit shifts the reversal so far up and appends bit `i` of `x`.
pub proof fn lemma_rev_step(x: nat, i: nat)
    ensures
        rev(x, i + 1) == 2 * rev(x, i) + (x / pow2(i)) % 2,
    decreases i,
{
    if i == 0 {
        assert(pow2(0) == 1);
        assert(rev(x / 2, 0) == 0 && rev(x, 0) == 0);
        assert((x % 2) * 1 == x % 2);
        assert(x / 1 == x);
        assert(rev(x, 1) == (x % 2) * pow2(0) + rev(x / 2, 0));
    } else {
        lemma_rev_step(x / 2, (i - 1) as nat);
        lemma_pow2_pos((i - 1) as nat);
        lemma_div_denominator(x as int, 2, pow2((i - 1) as nat) as int);
        let p = pow2((i - 1) as nat);
        assert(pow2(i) == 2 * p);
        assert(rev(x, i + 1) == (x % 2) * pow2(i) + rev(x / 2, i));
        assert(rev(x, i) == (x % 2) * p + rev(x / 2, (i - 1) as nat));
        assert((x / 2) / p == x / pow2(i));
        assert((x % 2) * (2 * p) == 2 * ((x % 2) * p)) by (nonlinear_arith);
        assert((x % 2) * pow2(i) == (x % 2) * (2 * p));
        assert(rev(x / 2, i) == 2 * rev(x / 2, (i - 1) as nat) + ((x / 2) / p) % 2);
    }
}

/// Reverses the 64 bits of `x`: bit `i` becomes bit `63 - i`.
pub fn reverse_bits(x: u64) -> (r: u64)
    ensures
        r as nat == rev(x as nat, 64),
{
    let mut r: u64 = 0;
    let mut y: u64 = x;
    let mut i: u64 = 0;
    proof {
        lemma_pow2_63_64();
        assert(x as nat / 1 == x as nat);
    }
    while i < 64
        invariant
            i <= 64,
            r as nat == rev(x as nat, i as nat),
            y as nat == x as nat / pow2(i as nat),
            pow2(63) == 0x8000_0000_0000_0000,
        decreases 64 - i,
    {
        proof {
            lemma_rev_bound(x as nat, i as nat);
            lemma_pow2_mono(i as nat, 63);
            lemma_rev_step(x as nat, i as nat);
            lemma_pow2_pos(i as nat);
            lemma_div_denominator(x as int, pow2(i as nat) as int, 2);
        }
        r = r * 2 + y % 2;
        y = y / 2;
        i = i + 1;
    }
    r
}

/// The key of bucket `index`'s sentinel, which is even.
pub(crate) fn sentinel_key_of(index: usize) -> (r: u64)
    requires
        valid_key(index),
    ensures
        r as nat == sentinel_key(index as nat),
        r % 2 == 0,
{
    proof {
        lemma_pow2_63_64();
        lemma_rev_even(index as nat, 64);
    }
    reverse_bits(index as u64)
}

/// The key of the data node for `key`, which is odd.
pub(crate) fn regular_key_of(key: usize) -> (r: u64)
    requires
        valid_key(key),
    ensures
        r as nat == regular_key(key as nat),
        r % 2 == 1,
{
    proof {
        lemma_pow2_63_64();
        lemma_rev_even(key as nat, 64);
    }
    let x = reverse_bits(key as u64);
    assert(x % 2 == 0 ==> (x | 1) == x + 1 && (x + 1) % 2 == 1) by (bit_vector);
    x | 1
}

} // verus!
