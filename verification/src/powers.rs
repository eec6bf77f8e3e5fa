//! Powers of two and of eight, the units in which cells of an octree are measured.

use vstd::prelude::*;

verus! {

/// Two to the power `n`.
pub open spec fn two_pow(n: nat) -> nat
    decreases n,
{
    if n == 0 {
        1
    } else {
        2 * two_pow((n - 1) as nat)
    }
}

/// Eight to the power `n`.
pub open spec fn eight_pow(n: nat) -> nat
    decreases n,
{
    if n == 0 {
        1
    } else {
        8 * eight_pow((n - 1) as nat)
    }
}

/// Powers of two are positive.
pub proof fn lemma_two_pow_positive(n: nat)
    ensures
        two_pow(n) >= 1,
    decreases n,
{
    if n > 0 {
        lemma_two_pow_positive((n - 1) as nat);
    }
}

/// Powers of eight are positive.
pub proof fn lemma_eight_pow_positive(n: nat)
    ensures
        eight_pow(n) >= 1,
    decreases n,
{
    if n > 0 {
        lemma_eight_pow_positive((n - 1) as nat);
    }
}

/// Powers of two grow with the exponent.
pub proof fn lemma_two_pow_monotonic(m: nat, n: nat)
    requires
        m <= n,
    ensures
        two_pow(m) <= two_pow(n),
    decreases n,
{
    if m < n {
        lemma_two_pow_monotonic(m, (n - 1) as nat);
        lemma_two_pow_positive((n - 1) as nat);
    }
}

/// Powers of eight grow with the exponent.
pub proof fn lemma_eight_pow_monotonic(m: nat, n: nat)
    requires
        m <= n,
    ensures
        eight_pow(m) <= eight_pow(n),
    decreases n,
{
    if m < n {
        lemma_eight_pow_monotonic(m, (n - 1) as nat);
        lemma_eight_pow_positive((n - 1) as nat);
    }
}

/// `2^(m + n) = 2^m * 2^n`.
pub proof fn lemma_two_pow_adds(m: nat, n: nat)
    ensures
        two_pow(m + n) == two_pow(m) * two_pow(n),
    decreases m,
{
    if m == 0 {
        assert(two_pow(0) == 1);
        assert(1 * two_pow(n) == two_pow(n));
    } else {
        lemma_two_pow_adds((m - 1) as nat, n);
        let a: nat = two_pow((m - 1) as nat);
        let b: nat = two_pow(n);
        assert(two_pow(m + n) == 2 * two_pow((m - 1 + n) as nat));
        assert(2 * (a * b) == (2 * a) * b) by (nonlinear_arith);
    }
}

/// `8^(m + n) = 8^m * 8^n`.
pub proof fn lemma_eight_pow_adds(m: nat, n: nat)
    ensures
        eight_pow(m + n) == eight_pow(m) * eight_pow(n),
    decreases m,
{
    if m == 0 {
        assert(eight_pow(0) == 1);
        assert(1 * eight_pow(n) == eight_pow(n));
    } else {
        lemma_eight_pow_adds((m - 1) as nat, n);
        let a: nat = eight_pow((m - 1) as nat);
        let b: nat = eight_pow(n);
        assert(eight_pow(m + n) == 8 * eight_pow((m - 1 + n) as nat));
        assert(8 * (a * b) == (8 * a) * b) by (nonlinear_arith);
    }
}

/// A power of eight divides every higher power of eight.
pub proof fn lemma_eight_pow_divides(m: nat, n: nat)
    requires
        m <= n,
    ensures
        eight_pow(n) % eight_pow(m) == 0,
        eight_pow(n) == eight_pow((n - m) as nat) * eight_pow(m),
{
    lemma_eight_pow_adds((n - m) as nat, m);
    lemma_eight_pow_positive(m);
    let q: nat = eight_pow((n - m) as nat);
    let d: nat = eight_pow(m);
    assert((q * d) % d == 0) by (nonlinear_arith)
        requires
            d > 0,
    ;
}

/// Powers of eight grow strictly with the exponent.
pub proof fn lemma_eight_pow_strictly_monotonic(m: nat, n: nat)
    requires
        m < n,
    ensures
        eight_pow(m) < eight_pow(n),
{
    lemma_eight_pow_monotonic(m + 1, n);
    lemma_eight_pow_positive(m);
}

/// Two distinct multiples of `w` lie at least `w` apart.
pub proof fn lemma_multiple_gap(a: nat, b: nat, w: nat)
    requires
        w > 0,
        a % w == 0,
        b % w == 0,
        a < b,
    ensures
        a + w <= b,
{
    let i: nat = a / w;
    let j: nat = b / w;
    assert(a == w * i && b == w * j) by (nonlinear_arith)
        requires
            w > 0,
            a % w == 0,
            b % w == 0,
            i == a / w,
            j == b / w,
    ;
    assert(a + w <= b) by (nonlinear_arith)
        requires
            w > 0,
            a == w * i,
            b == w * j,
            a < b,
    ;
}

/// A multiple of `w` is a multiple of every divisor of `w`.
pub proof fn lemma_multiple_of_multiple(a: nat, w: nat, v: nat)
    requires
        w > 0,
        v > 0,
        a % w == 0,
        w % v == 0,
    ensures
        a % v == 0,
{
    let i: nat = a / w;
    let j: nat = w / v;
    assert(a == w * i && w == v * j) by (nonlinear_arith)
        requires
            w > 0,
            v > 0,
            a % w == 0,
            w % v == 0,
            i == a / w,
            j == w / v,
    ;
    assert(a == v * (j * i)) by (nonlinear_arith)
        requires
            a == w * i,
            w == v * j,
    ;
    assert((v * (j * i)) % v == 0) by (nonlinear_arith)
        requires
            v > 0,
    ;
}

/// Rounding `c` down to a multiple of `w` gives the multiple of `w` at or below `c`.
pub proof fn lemma_round_down(c: nat, w: nat)
    requires
        w > 0,
    ensures
        c % w <= c,
        (c - c % w) % (w as int) == 0,
        c - c % w <= c < c - c % w + w,
{
    assert(c % w <= c && (c - c % w) % (w as int) == 0 && c % w < w) by (nonlinear_arith)
        requires
            w > 0,
            c >= 0,
    ;
}

/// The only multiple of `w` in `(c - w, c]` is `c` rounded down.
pub proof fn lemma_round_down_unique(c: nat, w: nat, a: nat)
    requires
        w > 0,
        a % w == 0,
        a <= c < a + w,
    ensures
        a == c - c % w,
{
    lemma_round_down(c, w);
    let r: nat = (c - c % w) as nat;
    if a < r {
        lemma_multiple_gap(a, r, w);
    } else if r < a {
        lemma_multiple_gap(r, a, w);
    }
}

/// Adding a multiple of `w` to a multiple of `w` gives a multiple of `w`.
pub proof fn lemma_add_multiple(a: nat, w: nat, i: nat)
    requires
        w > 0,
        a % w == 0,
    ensures
        (a + i * w) % w == 0,
{
    vstd::arithmetic::div_mod::lemma_mod_multiples_vanish(i as int, a as int, w as int);
    assert(w * i == i * w) by (nonlinear_arith);
}

/// The values of the powers that the sixteen levels of a tree use.
pub proof fn lemma_pow_values()
    ensures
        two_pow(15) == 32768,
        two_pow(16) == 65536,
        eight_pow(16) == 0x1_0000_0000_0000,
{
    reveal_with_fuel(two_pow, 17);
    reveal_with_fuel(eight_pow, 17);
}

/// Eight to the power `n`, for the exponents that a tree of sixteen levels needs.
pub fn pow8(n: u64) -> (r: u64)
    requires
        n <= 16,
    ensures
        r == eight_pow(n as nat),
        1 <= r <= 0x1_0000_0000_0000,
{
    let mut r: u64 = 1;
    let mut i: u64 = 0;
    proof {
        lemma_pow_values();
    }
    while i < n
        invariant
            i <= n <= 16,
            r == eight_pow(i as nat),
            eight_pow(16) == 0x1_0000_0000_0000,
        decreases n - i,
    {
        proof {
            lemma_eight_pow_monotonic((i + 1) as nat, 16);
        }
        r = r * 8;
        i = i + 1;
    }
    proof {
        lemma_eight_pow_positive(n as nat);
        lemma_eight_pow_monotonic(n as nat, 16);
    }
    r
}

/// Two to the power `n`, for the exponents that a tree of sixteen levels needs.
pub fn pow2(n: u64) -> (r: u64)
    requires
        n <= 16,
    ensures
        r == two_pow(n as nat),
        1 <= r <= 65536,
{
    let mut r: u64 = 1;
    let mut i: u64 = 0;
    proof {
        lemma_pow_values();
    }
    while i < n
        invariant
            i <= n <= 16,
            r == two_pow(i as nat),
            two_pow(16) == 65536,
        decreases n - i,
    {
        proof {
            lemma_two_pow_monotonic((i + 1) as nat, 16);
        }
        r = r * 2;
        i = i + 1;
    }
    proof {
        lemma_two_pow_positive(n as nat);
        lemma_two_pow_monotonic(n as nat, 16);
    }
    r
}

} // verus!
