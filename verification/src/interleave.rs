//! Bit interleaving of three coordinates into one Z-order number.
//!
//! A coordinate of `n` bits is spread so that its bit `i` stands at position `3i`;
//! three spread coordinates, shifted by zero, one and two places, make the
//! interleaved number. The functions here work for sixteen bits per coordinate.

use vstd::prelude::*;
use vstd::arithmetic::div_mod::lemma_fundamental_div_mod_converse;
use crate::powers::{
    eight_pow, lemma_eight_pow_positive, lemma_pow_values, lemma_two_pow_positive, two_pow,
};

verus! {

/// The number whose bit `3i` is bit `i` of `x`, for `i < n`, and whose other bits are zero.
pub open spec fn spread(x: nat, n: nat) -> nat
    decreases n,
{
    if n == 0 {
        0
    } else {
        (x % 2) + 8 * spread(x / 2, (n - 1) as nat)
    }
}

/// The number whose bit `i` is bit `3i` of `c`, for `i < n`.
pub open spec fn gather(c: nat, n: nat) -> nat
    decreases n,
{
    if n == 0 {
        0
    } else {
        (c % 2) + 2 * gather(c / 8, (n - 1) as nat)
    }
}

/// The Z-order number of three coordinates of `n` bits: `x` in the bits `3i`,
/// `y` in the bits `3i + 1`, `z` in the bits `3i + 2`.
pub open spec fn interleave(x: nat, y: nat, z: nat, n: nat) -> nat {
    spread(x, n) + 2 * spread(y, n) + 4 * spread(z, n)
}

/// A remainder is below its divisor and no larger than the dividend.
pub proof fn lemma_mod_range(x: nat, p: nat)
    requires
        p > 0,
    ensures
        0 <= x % p < p,
        x % p <= x,
{
    assert(0 <= x % p < p && x % p <= x) by (nonlinear_arith)
        requires
            p > 0,
            x >= 0,
    ;
}

/// `x mod 2^n` splits into the lowest bit and the rest.
pub proof fn lemma_mod_two_pow_step(x: nat, n: nat)
    requires
        n > 0,
    ensures
        x % two_pow(n) == (x % 2) + 2 * ((x / 2) % two_pow((n - 1) as nat)),
{
    let p: nat = two_pow((n - 1) as nat);
    lemma_two_pow_positive((n - 1) as nat);
    let q: nat = x / 2;
    let t: nat = q / p;
    let r: nat = q % p;
    assert(q == p * t + r) by (nonlinear_arith)
        requires
            t == q / p,
            r == q % p,
            p > 0,
    ;
    let rem: nat = 2 * r + x % 2;
    assert(x == t * (2 * p) + rem) by (nonlinear_arith)
        requires
            x == 2 * q + x % 2,
            q == p * t + r,
            rem == 2 * r + x % 2,
    ;
    assert(r < p) by (nonlinear_arith)
        requires
            r == q % p,
            p > 0,
    ;
    lemma_fundamental_div_mod_converse(x as int, (2 * p) as int, t as int, rem as int);
}

/// `c mod 8^n` splits into the lowest octal digit and the rest.
pub proof fn lemma_mod_eight_pow_step(c: nat, n: nat)
    requires
        n > 0,
    ensures
        c % eight_pow(n) == (c % 8) + 8 * ((c / 8) % eight_pow((n - 1) as nat)),
{
    let p: nat = eight_pow((n - 1) as nat);
    lemma_eight_pow_positive((n - 1) as nat);
    let q: nat = c / 8;
    let t: nat = q / p;
    let r: nat = q % p;
    assert(q == p * t + r) by (nonlinear_arith)
        requires
            t == q / p,
            r == q % p,
            p > 0,
    ;
    let rem: nat = 8 * r + c % 8;
    assert(c == t * (8 * p) + rem) by (nonlinear_arith)
        requires
            c == 8 * q + c % 8,
            q == p * t + r,
            rem == 8 * r + c % 8,
    ;
    assert(r < p) by (nonlinear_arith)
        requires
            r == q % p,
            p > 0,
    ;
    lemma_fundamental_div_mod_converse(c as int, (8 * p) as int, t as int, rem as int);
}

/// A spread number uses only every third bit, so seven of them stay below `8^n`.
pub proof fn lemma_spread_bound(x: nat, n: nat)
    ensures
        7 * spread(x, n) + 1 <= eight_pow(n),
    decreases n,
{
    if n > 0 {
        lemma_spread_bound(x / 2, (n - 1) as nat);
    }
}

/// An interleaved number of `n` bits per coordinate is below `8^n`.
pub proof fn lemma_interleave_bound(x: nat, y: nat, z: nat, n: nat)
    ensures
        interleave(x, y, z, n) < eight_pow(n),
{
    lemma_spread_bound(x, n);
    lemma_spread_bound(y, n);
    lemma_spread_bound(z, n);
}

/// A gathered number of `n` bits is below `2^n`.
pub proof fn lemma_gather_bound(c: nat, n: nat)
    ensures
        gather(c, n) < two_pow(n),
    decreases n,
{
    if n > 0 {
        lemma_gather_bound(c / 8, (n - 1) as nat);
    }
}

/// The lowest octal digit of an interleaved number holds the lowest bits of the
/// three coordinates; the digits above it interleave the halved coordinates.
pub proof fn lemma_interleave_step(x: nat, y: nat, z: nat, n: nat)
    requires
        n > 0,
    ensures
        interleave(x, y, z, n) == (x % 2) + 2 * (y % 2) + 4 * (z % 2) + 8 * interleave(
            x / 2,
            y / 2,
            z / 2,
            (n - 1) as nat,
        ),
{
}

/// The bits and the higher digits of a number given by its lowest octal digit
/// and the digits above it.
proof fn lemma_digit_split(c: nat, bx: nat, by: nat, bz: nat, rest: nat)
    requires
        bx < 2,
        by < 2,
        bz < 2,
        c == bx + 2 * by + 4 * bz + 8 * rest,
    ensures
        c % 2 == bx,
        (c / 2) % 2 == by,
        (c / 4) % 2 == bz,
        c / 8 == rest,
        (c / 2) / 8 == rest / 2,
        (c / 4) / 8 == rest / 4,
{
}

/// Gathering the three bit lanes of an interleaved number gives the coordinates back.
pub proof fn lemma_gather_interleave(x: nat, y: nat, z: nat, n: nat)
    ensures
        gather(interleave(x, y, z, n), n) == x % two_pow(n),
        gather(interleave(x, y, z, n) / 2, n) == y % two_pow(n),
        gather(interleave(x, y, z, n) / 4, n) == z % two_pow(n),
    decreases n,
{
    if n == 0 {
        assert(two_pow(0) == 1);
    } else {
        let m: nat = (n - 1) as nat;
        let rest: nat = interleave(x / 2, y / 2, z / 2, m);
        let c: nat = interleave(x, y, z, n);
        assert(c == (x % 2) + 2 * (y % 2) + 4 * (z % 2) + 8 * rest) by {
            lemma_interleave_step(x, y, z, n);
        }
        lemma_digit_split(c, x % 2, y % 2, z % 2, rest);
        assert(gather(rest, m) == (x / 2) % two_pow(m) && gather(rest / 2, m) == (y / 2) % two_pow(
            m,
        ) && gather(rest / 4, m) == (z / 2) % two_pow(m)) by {
            lemma_gather_interleave(x / 2, y / 2, z / 2, m);
        }
        assert(gather(c, n) == x % two_pow(n)) by {
            lemma_gather_step(c, n);
            lemma_mod_two_pow_step(x, n);
        }
        assert(gather(c / 2, n) == y % two_pow(n)) by {
            lemma_gather_step(c / 2, n);
            lemma_mod_two_pow_step(y, n);
        }
        assert(gather(c / 4, n) == z % two_pow(n)) by {
            lemma_gather_step(c / 4, n);
            lemma_mod_two_pow_step(z, n);
        }
    }
}

/// The lowest bit of a gathered number and the bits above it.
pub proof fn lemma_gather_step(c: nat, n: nat)
    requires
        n > 0,
    ensures
        gather(c, n) == (c % 2) + 2 * gather(c / 8, (n - 1) as nat),
        gather(c, n) % 2 == c % 2,
        gather(c, n) / 2 == gather(c / 8, (n - 1) as nat),
{
}

/// The lowest octal digit of a number, from its three lowest bits.
pub proof fn lemma_octal_digit(c: nat)
    ensures
        c % 8 == (c % 2) + 2 * ((c / 2) % 2) + 4 * ((c / 4) % 2),
{
    let q: nat = c / 8;
    let r: nat = c % 8;
    assert(c == 8 * q + r);
    assert(c / 2 == 4 * q + r / 2);
    assert(c / 4 == 2 * q + r / 4);
    assert(c % 2 == r % 2);
    assert((c / 2) % 2 == (r / 2) % 2);
    assert((c / 4) % 2 == (r / 4) % 2);
    assert(r == (r % 2) + 2 * ((r / 2) % 2) + 4 * ((r / 4) % 2));
}

/// One step of `lemma_interleave_gather`: from the digits above the lowest to all digits.
proof fn lemma_interleave_gather_step(c: nat, n: nat, x: nat, y: nat, z: nat)
    requires
        n > 0,
        x % 2 == c % 2,
        y % 2 == (c / 2) % 2,
        z % 2 == (c / 4) % 2,
        interleave(x / 2, y / 2, z / 2, (n - 1) as nat) == c / 8,
    ensures
        interleave(x, y, z, n) == c,
{
    let low: nat = (x % 2) + 2 * (y % 2) + 4 * (z % 2);
    assert(low == c % 8) by {
        lemma_octal_digit(c);
    }
    let full: nat = interleave(x, y, z, n);
    assert(full == low + 8 * (c / 8)) by {
        lemma_interleave_step(x, y, z, n);
    }
    assert(c == c % 8 + 8 * (c / 8));
}

/// Interleaving the three gathered bit lanes of a number below `8^n` gives the number back.
pub proof fn lemma_interleave_gather(c: nat, n: nat)
    requires
        c < eight_pow(n),
    ensures
        interleave(gather(c, n), gather(c / 2, n), gather(c / 4, n), n) == c,
    decreases n,
{
    if n > 0 {
        let m: nat = (n - 1) as nat;
        let rest: nat = c / 8;
        assert(rest < eight_pow(m));
        lemma_interleave_gather(rest, m);
        lemma_gather_step(c, n);
        lemma_gather_step(c / 2, n);
        lemma_gather_step(c / 4, n);
        assert((c / 2) / 8 == rest / 2);
        assert((c / 4) / 8 == rest / 4);
        lemma_interleave_gather_step(c, n, gather(c, n), gather(c / 2, n), gather(c / 4, n));
    } else {
        assert(eight_pow(0) == 1);
    }
}

/// Coordinates that are multiples of `2^m` interleave to a multiple of `8^m`.
pub proof fn lemma_interleave_aligned(x: nat, y: nat, z: nat, n: nat, m: nat)
    requires
        m <= n,
        x % two_pow(m) == 0,
        y % two_pow(m) == 0,
        z % two_pow(m) == 0,
    ensures
        interleave(x, y, z, n) % eight_pow(m) == 0,
    decreases m,
{
    if m == 0 {
        assert(eight_pow(0) == 1);
    } else {
        let p: nat = two_pow((m - 1) as nat);
        lemma_two_pow_positive((m - 1) as nat);
        lemma_mod_two_pow_step(x, m);
        lemma_mod_two_pow_step(y, m);
        lemma_mod_two_pow_step(z, m);
        lemma_mod_range(x / 2, p);
        lemma_mod_range(y / 2, p);
        lemma_mod_range(z / 2, p);
        lemma_interleave_aligned(x / 2, y / 2, z / 2, (n - 1) as nat, (m - 1) as nat);
        lemma_interleave_step(x, y, z, n);
        lemma_mod_eight_pow_step(interleave(x, y, z, n), m);
    }
}

/// The bit lanes of a multiple of `8^m` are multiples of `2^m`.
pub proof fn lemma_gather_aligned(c: nat, n: nat, m: nat)
    requires
        m <= n,
        c % eight_pow(m) == 0,
    ensures
        gather(c, n) % two_pow(m) == 0,
        gather(c / 2, n) % two_pow(m) == 0,
        gather(c / 4, n) % two_pow(m) == 0,
    decreases m,
{
    if m == 0 {
        assert(two_pow(0) == 1);
    } else {
        lemma_mod_eight_pow_step(c, m);
        lemma_eight_pow_positive((m - 1) as nat);
        lemma_mod_range(c / 8, eight_pow((m - 1) as nat));
        lemma_gather_step(c, n);
        lemma_gather_step(c / 2, n);
        lemma_gather_step(c / 4, n);
        assert(c % 8 == 0);
        assert((c / 2) / 8 == (c / 8) / 2);
        assert((c / 4) / 8 == (c / 8) / 4);
        lemma_gather_aligned(c / 8, (n - 1) as nat, (m - 1) as nat);
        lemma_mod_two_pow_step(gather(c, n), m);
        lemma_mod_two_pow_step(gather(c / 2, n), m);
        lemma_mod_two_pow_step(gather(c / 4, n), m);
    }
}

/// Rounding the three coordinates down to multiples of `2^m` rounds the
/// interleaved number down to a multiple of `8^m`.
pub proof fn lemma_interleave_truncate(x: nat, y: nat, z: nat, n: nat, m: nat)
    requires
        m <= n,
    ensures
        interleave(
            (x - x % two_pow(m)) as nat,
            (y - y % two_pow(m)) as nat,
            (z - z % two_pow(m)) as nat,
            n,
        ) == interleave(x, y, z, n) - interleave(x, y, z, n) % eight_pow(m),
    decreases m,
{
    if m == 0 {
        assert(two_pow(0) == 1);
        assert(eight_pow(0) == 1);
        lemma_mod_range(x, two_pow(m));
        lemma_mod_range(y, two_pow(m));
        lemma_mod_range(z, two_pow(m));
        lemma_mod_range(interleave(x, y, z, n), eight_pow(m));
        assert(x % two_pow(m) == 0);
        assert((x - x % two_pow(m)) as nat == x);
        assert(interleave(x, y, z, n) % eight_pow(m) == 0);
    } else {
        let k: nat = (m - 1) as nat;
        lemma_two_pow_positive(k);
        lemma_two_pow_positive(m);
        lemma_mod_range(x, two_pow(m));
        lemma_mod_range(y, two_pow(m));
        lemma_mod_range(z, two_pow(m));
        lemma_mod_range(x / 2, two_pow(k));
        lemma_mod_range(y / 2, two_pow(k));
        lemma_mod_range(z / 2, two_pow(k));
        lemma_mod_two_pow_step(x, m);
        lemma_mod_two_pow_step(y, m);
        lemma_mod_two_pow_step(z, m);
        let xt: nat = (x - x % two_pow(m)) as nat;
        let yt: nat = (y - y % two_pow(m)) as nat;
        let zt: nat = (z - z % two_pow(m)) as nat;
        let xh: nat = x / 2;
        let yh: nat = y / 2;
        let zh: nat = z / 2;
        assert(xt == 2 * (xh - xh % two_pow(k)));
        assert(yt == 2 * (yh - yh % two_pow(k)));
        assert(zt == 2 * (zh - zh % two_pow(k)));
        let xr: nat = (xh - xh % two_pow(k)) as nat;
        let yr: nat = (yh - yh % two_pow(k)) as nat;
        let zr: nat = (zh - zh % two_pow(k)) as nat;
        assert(xt / 2 == xr && xt % 2 == 0);
        assert(yt / 2 == yr && yt % 2 == 0);
        assert(zt / 2 == zr && zt % 2 == 0);
        let full: nat = interleave(x, y, z, n);
        let half: nat = interleave(xh, yh, zh, (n - 1) as nat);
        let low: nat = (x % 2) + 2 * (y % 2) + 4 * (z % 2);
        let rounded: nat = interleave(xt, yt, zt, n);
        let rounded_half: nat = interleave(xr, yr, zr, (n - 1) as nat);
        let rest: nat = full % eight_pow(m);
        let rest_half: nat = half % eight_pow(k);
        assert(rounded_half == half - rest_half) by {
            lemma_interleave_truncate(xh, yh, zh, (n - 1) as nat, k);
        }
        assert(rounded == 8 * rounded_half) by {
            lemma_interleave_step(xt, yt, zt, n);
        }
        assert(full == low + 8 * half) by {
            lemma_interleave_step(x, y, z, n);
        }
        assert(rest == low + 8 * rest_half) by {
            lemma_mod_eight_pow_step(full, m);
            assert(full / 8 == half);
            assert(full % 8 == low);
        }
        assert(rounded == full - rest) by (nonlinear_arith)
            requires
                rounded_half == half - rest_half,
                rounded == 8 * rounded_half,
                full == low + 8 * half,
                rest == low + 8 * rest_half,
        ;
    }
}

/// The magic-number dilation of a sixteen-bit coordinate, as a formula on bits.
pub open spec fn dilate_bits(x: u64) -> u64 {
    let a: u64 = (x | (x << 32)) & 0x1f00000000ffffu64;
    let b: u64 = (a | (a << 16)) & 0x1f0000ff0000ffu64;
    let c: u64 = (b | (b << 8)) & 0x100f00f00f00f00fu64;
    let d: u64 = (c | (c << 4)) & 0x10c30c30c30c30c3u64;
    (d | (d << 2)) & 0x1249249249249249u64
}

/// The magic-number contraction of every third bit, as a formula on bits.
pub open spec fn contract_bits(c: u64) -> u64 {
    let a: u64 = c & 0x1249249249249249u64;
    let b: u64 = (a ^ (a >> 2)) & 0x10c30c30c30c30c3u64;
    let d: u64 = (b ^ (b >> 4)) & 0x100f00f00f00f00fu64;
    let e: u64 = (d ^ (d >> 8)) & 0x1f0000ff0000ffu64;
    let f: u64 = (e ^ (e >> 16)) & 0x1f00000000ffffu64;
    (f ^ (f >> 32)) & 0x1fffffu64
}

/// Sixteen steps of `spread`, written out.
pub open spec fn spread_unrolled(x: u64) -> int {
    (x % 2) + 8 * (((x / 2) % 2) + 8 * (((x / 4) % 2) + 8 * (((x / 8) % 2) + 8 * (((x / 16) % 2)
        + 8 * (((x / 32) % 2) + 8 * (((x / 64) % 2) + 8 * (((x / 128) % 2) + 8 * (((x / 256) % 2)
        + 8 * (((x / 512) % 2) + 8 * (((x / 1024) % 2) + 8 * (((x / 2048) % 2) + 8 * (((x / 4096)
        % 2) + 8 * (((x / 8192) % 2) + 8 * (((x / 16384) % 2) + 8 * ((x / 32768)
        % 2)))))))))))))))
}

/// Sixteen steps of `gather`, written out.
pub open spec fn gather_unrolled(c: u64) -> int {
    (c % 2) + 2 * (((c / 0x8) % 2) + 2 * (((c / 0x40) % 2) + 2 * (((c / 0x200) % 2) + 2 * (((c
        / 0x1000) % 2) + 2 * (((c / 0x8000) % 2) + 2 * (((c / 0x40000) % 2) + 2 * (((c / 0x200000)
        % 2) + 2 * (((c / 0x1000000) % 2) + 2 * (((c / 0x8000000) % 2) + 2 * (((c / 0x40000000)
        % 2) + 2 * (((c / 0x200000000) % 2) + 2 * (((c / 0x1000000000) % 2) + 2 * (((c
        / 0x8000000000) % 2) + 2 * (((c / 0x40000000000) % 2) + 2 * ((c / 0x200000000000)
        % 2)))))))))))))))
}

/// Sixteen steps of `spread` are what `spread_unrolled` writes out.
proof fn lemma_spread_unrolled(x: u64)
    ensures
        spread(x as nat, 16) == spread_unrolled(x),
{
    reveal_with_fuel(spread, 17);
    let v: nat = x as nat;
    assert(v / 2 / 2 == v / 4);
    assert(v / 4 / 2 == v / 8);
    assert(v / 8 / 2 == v / 16);
    assert(v / 16 / 2 == v / 32);
    assert(v / 32 / 2 == v / 64);
    assert(v / 64 / 2 == v / 128);
    assert(v / 128 / 2 == v / 256);
    assert(v / 256 / 2 == v / 512);
    assert(v / 512 / 2 == v / 1024);
    assert(v / 1024 / 2 == v / 2048);
    assert(v / 2048 / 2 == v / 4096);
    assert(v / 4096 / 2 == v / 8192);
    assert(v / 8192 / 2 == v / 16384);
    assert(v / 16384 / 2 == v / 32768);
}

/// Sixteen steps of `gather` are what `gather_unrolled` writes out.
proof fn lemma_gather_unrolled(c: u64)
    ensures
        gather(c as nat, 16) == gather_unrolled(c),
{
    reveal_with_fuel(gather, 17);
    let v: nat = c as nat;
    assert(v / 0x8 / 8 == v / 0x40);
    assert(v / 0x40 / 8 == v / 0x200);
    assert(v / 0x200 / 8 == v / 0x1000);
    assert(v / 0x1000 / 8 == v / 0x8000);
    assert(v / 0x8000 / 8 == v / 0x40000);
    assert(v / 0x40000 / 8 == v / 0x200000);
    assert(v / 0x200000 / 8 == v / 0x1000000);
    assert(v / 0x1000000 / 8 == v / 0x8000000);
    assert(v / 0x8000000 / 8 == v / 0x40000000);
    assert(v / 0x40000000 / 8 == v / 0x200000000);
    assert(v / 0x200000000 / 8 == v / 0x1000000000);
    assert(v / 0x1000000000 / 8 == v / 0x8000000000);
    assert(v / 0x8000000000 / 8 == v / 0x40000000000);
    assert(v / 0x40000000000 / 8 == v / 0x200000000000);
}

/// Spreads a sixteen-bit coordinate over forty-eight bits with five shifts and masks.
pub fn dilate(x: u64) -> (r: u64)
    requires
        x < 0x10000,
    ensures
        r == spread(x as nat, 16),
        r < 0x1_0000_0000_0000,
{
    let a: u64 = (x | (x << 32)) & 0x1f00000000ffffu64;
    let b: u64 = (a | (a << 16)) & 0x1f0000ff0000ffu64;
    let c: u64 = (b | (b << 8)) & 0x100f00f00f00f00fu64;
    let d: u64 = (c | (c << 4)) & 0x10c30c30c30c30c3u64;
    let r: u64 = (d | (d << 2)) & 0x1249249249249249u64;
    proof {
        assert(dilate_bits(x) == spread_unrolled(x)) by (bit_vector)
            requires
                x < 0x10000,
        ;
        lemma_spread_unrolled(x);
        lemma_spread_bound(x as nat, 16);
        lemma_pow_values();
    }
    r
}

/// Collects every third bit of a forty-eight-bit number into a sixteen-bit coordinate.
pub fn contract(c: u64) -> (r: u64)
    requires
        c < 0x1_0000_0000_0000,
    ensures
        r == gather(c as nat, 16),
        r < 0x10000,
{
    let a: u64 = c & 0x1249249249249249u64;
    let b: u64 = (a ^ (a >> 2)) & 0x10c30c30c30c30c3u64;
    let d: u64 = (b ^ (b >> 4)) & 0x100f00f00f00f00fu64;
    let e: u64 = (d ^ (d >> 8)) & 0x1f0000ff0000ffu64;
    let f: u64 = (e ^ (e >> 16)) & 0x1f00000000ffffu64;
    let r: u64 = (f ^ (f >> 32)) & 0x1fffffu64;
    proof {
        assert(contract_bits(c) == gather_unrolled(c)) by (bit_vector)
            requires
                c < 0x1_0000_0000_0000,
        ;
        lemma_gather_unrolled(c);
        lemma_gather_bound(c as nat, 16);
        lemma_pow_values();
    }
    r
}

/// Interleaves three sixteen-bit coordinates into one forty-eight-bit number.
pub fn interleave_bits(x: u64, y: u64, z: u64) -> (r: u64)
    requires
        x < 0x10000,
        y < 0x10000,
        z < 0x10000,
    ensures
        r == interleave(x as nat, y as nat, z as nat, 16),
        r < 0x1_0000_0000_0000,
{
    let dx: u64 = dilate(x);
    let dy: u64 = dilate(y);
    let dz: u64 = dilate(z);
    proof {
        assert(dilate_bits(x) | (dilate_bits(y) << 1) | (dilate_bits(z) << 2) == dilate_bits(x) + 2
            * dilate_bits(y) + 4 * dilate_bits(z)) by (bit_vector)
            requires
                x < 0x10000,
                y < 0x10000,
                z < 0x10000,
        ;
        assert(dilate_bits(x) == spread_unrolled(x)) by (bit_vector)
            requires
                x < 0x10000,
        ;
        assert(dilate_bits(y) == spread_unrolled(y)) by (bit_vector)
            requires
                y < 0x10000,
        ;
        assert(dilate_bits(z) == spread_unrolled(z)) by (bit_vector)
            requires
                z < 0x10000,
        ;
        lemma_spread_unrolled(x);
        lemma_spread_unrolled(y);
        lemma_spread_unrolled(z);
        lemma_interleave_bound(x as nat, y as nat, z as nat, 16);
        lemma_pow_values();
    }
    dx | (dy << 1) | (dz << 2)
}

} // verus!
