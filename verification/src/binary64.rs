//! Non-negative double precision numbers, in integer arithmetic.
//!
//! A brightness or an effect is a colour times a factor, computed in IEEE 754
//! double precision and cut down to a whole number. This module holds such numbers
//! as a mantissa and a binary exponent, and rounds each operation as that standard
//! does: to 53 significant bits, to the nearest number, and to the even one of two
//! that are equally near.
use vstd::arithmetic::power2::*;
use vstd::prelude::*;

verus! {

/// The least mantissa of 53 bits.
pub const LEAST: u64 = 0x10_0000_0000_0000;

/// The least mantissa of 54 bits.
pub const LIMIT: u64 = 0x20_0000_0000_0000;

/// The number `mant / 2^exp`.
pub struct Dyadic {
    pub mant: nat,
    pub exp: nat,
}

/// The whole number nearest to `n / d`, and the even one of two.
pub open spec fn nearest(n: nat, d: nat) -> nat {
    let q = n / d;
    let r = n % d;
    if 2 * r < d || (2 * r == d && q % 2 == 0) {
        q
    } else {
        q + 1
    }
}

/// How many bits `m` has beyond the 53 that a mantissa holds.
pub open spec fn excess(m: nat) -> nat
    decreases m,
{
    if m < LIMIT {
        0
    } else {
        1 + excess(m / 2)
    }
}

/// The double precision number nearest to `m / 2^e`.
pub open spec fn rounded(m: nat, e: nat) -> Dyadic {
    Dyadic { mant: nearest(m, pow2(excess(m))), exp: (e - excess(m)) as nat }
}

/// How often `n` has to be doubled before `n / d` has 53 bits in front of the point.
pub open spec fn doublings(n: nat, d: nat) -> nat
    decreases LIMIT * d - n,
{
    if n == 0 || n >= LEAST * d {
        0
    } else {
        1 + doublings(2 * n, d)
    }
}

/// The double precision number nearest to `n / d`.
pub open spec fn quotient_of(n: nat, d: nat) -> Dyadic {
    let s = doublings(n, d);
    Dyadic { mant: nearest(n * pow2(s), d), exp: s }
}

impl Dyadic {
    /// `self * k`, rounded.
    pub open spec fn times(self, k: nat) -> Dyadic {
        rounded(self.mant * k, self.exp)
    }

    /// `self / k`, rounded.
    pub open spec fn over(self, k: nat) -> Dyadic {
        let q = quotient_of(self.mant, k);
        Dyadic { mant: q.mant, exp: q.exp + self.exp }
    }

    /// `self + k`, rounded.
    pub open spec fn plus(self, k: nat) -> Dyadic {
        rounded(self.mant + k * pow2(self.exp), self.exp)
    }

    /// `self - k`, rounded.
    pub open spec fn minus(self, k: nat) -> Dyadic {
        rounded((self.mant - k * pow2(self.exp)) as nat, self.exp)
    }

    /// `k - self`, rounded.
    pub open spec fn subtracted_from(self, k: nat) -> Dyadic {
        rounded((k * pow2(self.exp) - self.mant) as nat, self.exp)
    }

    /// Whether the number is less than `k`.
    pub open spec fn below(self, k: nat) -> bool {
        self.mant < k * pow2(self.exp)
    }

    /// Whether the number is at most `k`.
    pub open spec fn at_most(self, k: nat) -> bool {
        self.mant <= k * pow2(self.exp)
    }

    /// The whole part of the number.
    pub open spec fn whole(self) -> nat {
        self.mant / pow2(self.exp)
    }

    /// Whether the mantissa is that of a double precision number.
    pub open spec fn wf(self) -> bool {
        self.mant <= LIMIT
    }
}

// ---------------------------------------------------------------------------
// Lemmas
// ---------------------------------------------------------------------------

/// Rounding does not pass a whole number.
pub proof fn lemma_nearest(n: nat, d: nat, q: nat)
    requires
        d > 0,
    ensures
        n <= q * d ==> nearest(n, d) <= q,
        n >= q * d ==> nearest(n, d) >= q,
        2 * nearest(n, d) * d <= 2 * n + d,
        2 * nearest(n, d) * d + d >= 2 * n,
{
    let w = n / d;
    let r = n % d;
    vstd::arithmetic::div_mod::lemma_fundamental_div_mod(n as int, d as int);
    assert(n == w * d + r) by (nonlinear_arith)
        requires
            n == d * w + r,
    ;
    assert(0 <= r < d);
    assert((w + 1) * d == w * d + d) by (nonlinear_arith);
    if n <= q * d {
        assert(w <= q && (r > 0 ==> w < q)) by (nonlinear_arith)
            requires
                n == w * d + r,
                n <= q * d,
                0 <= r < d,
                d > 0,
        ;
    }
    if n >= q * d {
        assert(w >= q) by (nonlinear_arith)
            requires
                n == w * d + r,
                n >= q * d,
                0 <= r < d,
                d > 0,
        ;
    }
    let v = nearest(n, d);
    assert(2 * v * d == 2 * (v * d)) by (nonlinear_arith);
    if v == w {
        assert(v * d == w * d);
    } else {
        assert(v * d == (w + 1) * d);
    }
}

/// A number of `53 + j` bits has at most `j` bits too many.
pub proof fn lemma_excess(m: nat, j: nat)
    requires
        m < LIMIT * pow2(j),
    ensures
        excess(m) <= j,
    decreases j,
{
    if m >= LIMIT {
        if j == 0 {
            lemma2_to64();
        } else {
            lemma_pow2_unfold(j);
            let p = pow2((j - 1) as nat);
            assert(LIMIT * (2 * p) == 2 * (LIMIT * p)) by (nonlinear_arith);
            assert(m / 2 < LIMIT * p);
            lemma_excess(m / 2, (j - 1) as nat);
        }
    }
}

/// The mantissa without its excess bits has 53 bits.
pub proof fn lemma_excess_fits(m: nat)
    ensures
        m < LIMIT * pow2(excess(m)),
        m >= LIMIT ==> m >= LEAST * pow2(excess(m)),
    decreases m,
{
    if m < LIMIT {
        lemma2_to64();
    } else {
        let k = excess(m / 2);
        lemma_excess_fits(m / 2);
        lemma_pow2_unfold(k + 1);
        let p = pow2(k);
        assert(LIMIT * (2 * p) == 2 * (LIMIT * p)) by (nonlinear_arith);
        assert(LEAST * (2 * p) == 2 * (LEAST * p)) by (nonlinear_arith);
        if m / 2 < LIMIT {
            lemma2_to64();
            assert(p == 1);
        }
    }
}

/// What rounding keeps: the mantissa has 53 bits, and a whole number that bounds the
/// value bounds the rounded value too.
pub proof fn lemma_rounded(m: nat, e: nat, q: nat)
    requires
        excess(m) <= e,
    ensures
        rounded(m, e).wf(),
        rounded(m, e).exp <= e,
        m <= q * pow2(e) ==> rounded(m, e).mant <= q * pow2(rounded(m, e).exp),
        m >= q * pow2(e) ==> rounded(m, e).mant >= q * pow2(rounded(m, e).exp),
{
    let k = excess(m);
    let g = pow2(k);
    lemma_pow2_pos(k);
    lemma_excess_fits(m);
    lemma_nearest(m, g, LIMIT as nat);
    lemma_pow2_adds((e - k) as nat, k);
    let p = pow2((e - k) as nat);
    assert(q * (p * g) == (q * p) * g) by (nonlinear_arith);
    lemma_nearest(m, g, q * p);
}

/// A value below `2^v` keeps at least `52 - v` binary places.
pub proof fn lemma_rounded_places(m: nat, e: nat, v: nat)
    requires
        v <= 52,
        m <= pow2(v) * pow2(e),
    ensures
        excess(m) <= e,
        rounded(m, e).exp >= e || rounded(m, e).exp + v >= 52,
{
    lemma2_to64();
    lemma2_to64_rest();
    lemma_pow2_adds(v, e);
    if v + e < 53 {
        if v + e < 52 {
            lemma_pow2_strictly_increases(v + e, 53);
        } else {
        }
        assert(m < LIMIT);
    } else {
        let j = (v + e - 52) as nat;
        lemma_pow2_adds(53, j);
        lemma_pow2_unfold(v + e + 1);
        lemma_pow2_pos(v + e);
        assert(LIMIT * pow2(j) == pow2(v + e + 1));
        lemma_excess(m, j);
    }
}

/// A mantissa times a number below 512 has at most nine bits too many.
pub proof fn lemma_product(m: nat, k: nat)
    requires
        m <= LIMIT,
        k < 512,
    ensures
        excess(m * k) <= 9,
        m * k < LIMIT * 512,
        m <= 1 ==> excess(m * k) == 0,
{
    lemma2_to64();
    assert(m * k < LIMIT * 512) by (nonlinear_arith)
        requires
            m <= LIMIT,
            k < 512,
    ;
    lemma_excess(m * k, 9);
    if m <= 1 {
        assert(m * k <= k) by (nonlinear_arith)
            requires
                m <= 1,
        ;
    }
}

/// What division keeps: the mantissa has 53 bits, and so has the numerator in units
/// of the divisor.
pub proof fn lemma_doublings(n: nat, d: nat)
    requires
        0 < d,
        n < LIMIT * d,
    ensures
        n > 0 ==> n * pow2(doublings(n, d)) >= LEAST * d,
        n * pow2(doublings(n, d)) < LIMIT * d,
    decreases LIMIT * d - n,
{
    lemma2_to64();
    let s = doublings(n, d);
    if n == 0 || n >= LEAST * d {
        assert(n * 1 == n);
        assert(pow2(s) == 1);
    } else {
        assert(LIMIT * d == 2 * (LEAST * d)) by (nonlinear_arith);
        lemma_doublings(2 * n, d);
        lemma_pow2_unfold(s);
        let p = pow2((s - 1) as nat);
        assert(2 * n * p == n * (2 * p)) by (nonlinear_arith);
    }
}

/// Where `n / d` is at least `2^-v`, it takes at most `52 + v` doublings.
pub proof fn lemma_doublings_most(n: nat, d: nat, v: nat)
    requires
        0 < d,
        0 < n < LIMIT * d,
        d <= n * pow2(v),
    ensures
        doublings(n, d) <= 52 + v,
{
    let s = doublings(n, d);
    lemma_doublings(n, d);
    lemma2_to64_rest();
    if s > 52 + v {
        lemma_pow2_adds(v, 52);
        lemma_pow2_unfold(s);
        if s - 1 > 52 + v {
            lemma_pow2_strictly_increases(52 + v, (s - 1) as nat);
        }
        let p = pow2(s);
        let b = pow2(v);
        assert(n * p >= LIMIT * d) by (nonlinear_arith)
            requires
                p >= 2 * (b * LEAST),
                d <= n * b,
                LIMIT == 2 * LEAST,
                n > 0,
        ;
    }
}

/// Where `n / d` is at most `2^v`, it takes at least `52 - v` doublings.
pub proof fn lemma_doublings_least(n: nat, d: nat, v: nat)
    requires
        0 < d,
        0 < n < LIMIT * d,
        n <= d * pow2(v),
    ensures
        doublings(n, d) + v >= 52,
{
    let s = doublings(n, d);
    lemma_doublings(n, d);
    lemma2_to64_rest();
    if s + v < 52 {
        lemma_pow2_strictly_increases(s + v, 52);
        lemma_pow2_adds(s, v);
        let p = pow2(s);
        let a = pow2(v);
        assert(n * p < LEAST * d) by (nonlinear_arith)
            requires
                n <= d * a,
                p * a < LEAST,
                d > 0,
        ;
    }
}

/// What division keeps of the size of a value.
pub proof fn lemma_quotient(n: nat, d: nat, q: nat)
    requires
        0 < d,
        n < LIMIT * d,
    ensures
        quotient_of(n, d).wf(),
        n <= q * d ==> quotient_of(n, d).mant <= q * pow2(quotient_of(n, d).exp),
        n >= q * d ==> quotient_of(n, d).mant >= q * pow2(quotient_of(n, d).exp),
{
    let s = doublings(n, d);
    let p = pow2(s);
    lemma_doublings(n, d);
    lemma_nearest(n * p, d, LIMIT as nat);
    lemma_nearest(n * p, d, q * p);
    if n <= q * d {
        assert(n * p <= (q * p) * d) by (nonlinear_arith)
            requires
                n <= q * d,
        ;
    }
    if n >= q * d {
        assert(n * p >= (q * p) * d) by (nonlinear_arith)
            requires
                n >= q * d,
        ;
    }
}

/// A value of at most `q` has a whole part of at most `q`, and one of at least `q` a
/// whole part of at least `q`.
pub proof fn lemma_whole(a: Dyadic, q: nat)
    ensures
        a.at_most(q) ==> a.whole() <= q,
        a.mant >= q * pow2(a.exp) ==> a.whole() >= q,
        a.below(q) ==> a.whole() < q,
{
    let p = pow2(a.exp);
    lemma_pow2_pos(a.exp);
    let w = a.mant / p;
    vstd::arithmetic::div_mod::lemma_fundamental_div_mod(a.mant as int, p as int);
    let r = a.mant % p;
    let m = a.mant;
    if a.at_most(q) {
        assert(w <= q) by (nonlinear_arith)
            requires
                m == p * w + r,
                0 <= r < p,
                m <= q * p,
        ;
    }
    if m >= q * p {
        assert(w >= q) by (nonlinear_arith)
            requires
                m == p * w + r,
                0 <= r < p,
                m >= q * p,
        ;
    }
    if a.below(q) {
        assert(w < q) by (nonlinear_arith)
            requires
                m == p * w + r,
                0 <= r < p,
                m < q * p,
        ;
    }
}

/// Rounding a fraction does not depend on how it is reduced.
pub proof fn lemma_nearest_of_same(n: nat, d: nat, m: nat, e: nat)
    requires
        d > 0,
        e > 0,
        n * e == m * d,
    ensures
        nearest(n, d) == nearest(m, e),
{
    let q = n / d;
    let r = n % d;
    vstd::arithmetic::div_mod::lemma_fundamental_div_mod(n as int, d as int);
    let r2 = m - q * e;
    assert(r2 * d == r * e) by (nonlinear_arith)
        requires
            n == d * q + r,
            n * e == m * d,
            r2 == m - q * e,
    ;
    assert(0 <= r2 < e) by (nonlinear_arith)
        requires
            r2 * d == r * e,
            0 <= r < d,
            d > 0,
            e > 0,
    ;
    assert(m == q * e + r2);
    vstd::arithmetic::div_mod::lemma_fundamental_div_mod_converse(m as int, e as int, q as int, r2);
    assert((2 * r < d <==> 2 * r2 < e) && (2 * r == d <==> 2 * r2 == e)) by (nonlinear_arith)
        requires
            r2 * d == r * e,
            d > 0,
            e > 0,
    ;
}

/// The quotient of two numbers does not depend on how the fraction is reduced.
pub proof fn lemma_quotient_of_same(n: nat, d: nat, m: nat, e: nat)
    requires
        d > 0,
        e > 0,
        n * e == m * d,
    ensures
        quotient_of(n, d) == quotient_of(m, e),
{
    lemma_doublings_of_same(n, d, m, e);
    let p = pow2(doublings(n, d));
    assert((n * p) * e == (m * p) * d) by (nonlinear_arith)
        requires
            n * e == m * d,
    ;
    lemma_nearest_of_same(n * p, d, m * p, e);
}

proof fn lemma_doublings_of_same(n: nat, d: nat, m: nat, e: nat)
    requires
        d > 0,
        e > 0,
        n * e == m * d,
    ensures
        doublings(n, d) == doublings(m, e),
    decreases LIMIT * d - n,
{
    assert(n == 0 <==> m == 0) by (nonlinear_arith)
        requires
            n * e == m * d,
            d > 0,
            e > 0,
    ;
    assert(n >= LEAST * d <==> m >= LEAST * e) by (nonlinear_arith)
        requires
            n * e == m * d,
            d > 0,
            e > 0,
    ;
    if n > 0 && n < LEAST * d {
        assert((2 * n) * e == (2 * m) * d) by (nonlinear_arith)
            requires
                n * e == m * d,
        ;
        lemma_doublings_of_same(2 * n, d, 2 * m, e);
    }
}

/// How often a number has to be doubled is told by where that brings it.
pub proof fn lemma_doublings_are(n: nat, d: nat, s: nat)
    requires
        0 < d,
        0 < n < LIMIT * d,
        LEAST * d <= n * pow2(s) < LIMIT * d,
    ensures
        doublings(n, d) == s,
{
    let t = doublings(n, d);
    lemma_doublings(n, d);
    if t < s {
        lemma_pow2_unfold(s);
        if t + 1 < s {
            lemma_pow2_strictly_increases(t, (s - 1) as nat);
        }
        let p = pow2(t);
        assert(n * pow2(s) >= LIMIT * d) by (nonlinear_arith)
            requires
                pow2(s) >= 2 * p,
                n * p >= LEAST * d,
                LIMIT == 2 * LEAST,
        ;
    }
    if t > s {
        lemma_pow2_unfold(t);
        if s + 1 < t {
            lemma_pow2_strictly_increases(s, (t - 1) as nat);
        }
        let p = pow2(s);
        assert(n * pow2(t) >= LIMIT * d) by (nonlinear_arith)
            requires
                pow2(t) >= 2 * p,
                n * p >= LEAST * d,
                LIMIT == 2 * LEAST,
        ;
    }
}

// ---------------------------------------------------------------------------
// Executable numbers
// ---------------------------------------------------------------------------

/// A non-negative double precision number.
#[derive(Clone, Copy)]
pub struct Binary64 {
    pub mant: u64,
    pub exp: u32,
}

impl View for Binary64 {
    type V = Dyadic;

    open spec fn view(&self) -> Dyadic {
        Dyadic { mant: self.mant as nat, exp: self.exp as nat }
    }
}

/// Two to the power of `e`.
fn power_of_two(e: u32) -> (r: u128)
    requires
        e <= 100,
    ensures
        r == pow2(e as nat),
        r <= 0x10_0000_0000_0000_0000_0000_0000,
{
    let mut p: u128 = 1;
    let mut i: u32 = 0;
    proof {
        lemma2_to64();
        lemma2_to64_rest();
        lemma_pow2_adds(64, 36);
    }
    assert(pow2(100) == 0x10_0000_0000_0000_0000_0000_0000);
    while i < e
        invariant
            i <= e <= 100,
            p == pow2(i as nat),
            pow2(100) == 0x10_0000_0000_0000_0000_0000_0000,
        decreases e - i,
    {
        proof {
            lemma_pow2_unfold((i + 1) as nat);
            if i + 1 < 100 {
                lemma_pow2_strictly_increases((i + 1) as nat, 100);
            }
        }
        p = p * 2;
        i += 1;
    }
    proof {
        if e < 100 {
            lemma_pow2_strictly_increases(e as nat, 100);
        }
    }
    p
}

/// `k` times two to the power of `e`.
fn shifted(k: u32, e: u32) -> (r: u128)
    requires
        k <= 512,
        e <= 100,
    ensures
        r == k * pow2(e as nat),
        r <= 0x2000_0000_0000_0000_0000_0000_0000,
{
    let p: u128 = power_of_two(e);
    assert(k * p <= 512 * 0x10_0000_0000_0000_0000_0000_0000) by (nonlinear_arith)
        requires
            k <= 512,
            p <= 0x10_0000_0000_0000_0000_0000_0000,
    ;
    k as u128 * p
}

fn nearest_whole(n: u128, d: u128) -> (r: u128)
    requires
        0 < d,
        n <= 0x8000_0000_0000_0000_0000_0000_0000_0000,
        d <= 0x4000_0000_0000_0000_0000_0000_0000_0000,
    ensures
        r == nearest(n as nat, d as nat),
{
    let q: u128 = n / d;
    let r: u128 = n % d;
    assert(q <= n) by (nonlinear_arith)
        requires
            q == n / d,
            d > 0,
    ;
    if 2 * r < d || (2 * r == d && q % 2 == 0) {
        q
    } else {
        q + 1
    }
}

/// Rounds `m / 2^e` to double precision.
fn round(m: u128, e: u32) -> (r: Binary64)
    requires
        m <= 0x4000_0000_0000_0000_0000_0000_0000_0000,
        excess(m as nat) <= e,
    ensures
        r@ == rounded(m as nat, e as nat),
        r@.wf(),
{
    let mut t: u128 = m;
    let mut g: u128 = 1;
    let mut k: u32 = 0;
    proof {
        lemma2_to64();
    }
    while t >= LIMIT as u128
        invariant
            excess(m as nat) == k + excess(t as nat),
            excess(m as nat) <= e,
            g == pow2(k as nat),
            g * t <= m,
            m <= 0x4000_0000_0000_0000_0000_0000_0000_0000,
        decreases t,
    {
        proof {
            lemma_pow2_unfold((k + 1) as nat);
            assert(g * 2 <= m) by (nonlinear_arith)
                requires
                    g * t <= m,
                    t >= 2,
            ;
            let h = t / 2;
            assert((g * 2) * h <= m) by (nonlinear_arith)
                requires
                    g * t <= m,
                    2 * h <= t,
            ;
        }
        t = t / 2;
        g = g * 2;
        k += 1;
    }
    proof {
        assert(excess(t as nat) == 0);
        lemma_pow2_pos(k as nat);
        lemma_rounded(m as nat, e as nat, 0);
        if k == 0 {
        } else {
            lemma_excess_fits(m as nat);
            assert(g <= m) by (nonlinear_arith)
                requires
                    m >= LEAST * g || m < LIMIT,
                    m >= LEAST * g,
            ;
        }
    }
    Binary64 { mant: nearest_whole(m, g) as u64, exp: e - k }
}

impl Binary64 {
    /// The double precision number nearest to `n / d`.
    pub fn quotient(n: u64, d: u32) -> (r: Binary64)
        requires
            0 < d,
            n < LIMIT * d,
        ensures
            r@ == quotient_of(n as nat, d as nat),
            r@.wf(),
            r.exp <= 84,
    {
        let mut num: u128 = n as u128;
        let mut s: u32 = 0;
        let bound: u128 = LEAST as u128 * d as u128;
        proof {
            lemma2_to64();
            lemma_quotient(n as nat, d as nat, 0);
            if n > 0 {
                lemma_doublings_most(n as nat, d as nat, 32);
            }
        }
        while num > 0 && num < bound
            invariant
                s + doublings(num as nat, d as nat) == doublings(n as nat, d as nat),
                num == n * pow2(s as nat),
                bound == LEAST * d,
                0 < d,
                doublings(n as nat, d as nat) <= 84,
            decreases LIMIT * d - num,
        {
            proof {
                lemma_pow2_unfold((s + 1) as nat);
                let p = pow2(s as nat);
                assert(2 * (n * p) == n * (2 * p)) by (nonlinear_arith);
            }
            num = num * 2;
            s += 1;
        }
        proof {
            lemma_doublings(n as nat, d as nat);
        }
        Binary64 { mant: nearest_whole(num, d as u128) as u64, exp: s }
    }

    /// `self * k`, rounded.
    pub fn mul(self, k: u32) -> (r: Binary64)
        requires
            self@.wf(),
            k < 512,
            excess((self.mant * k) as nat) <= self.exp,
        ensures
            r@ == self@.times(k as nat),
            r@.wf(),
            r.exp <= self.exp,
            r.exp + 9 >= self.exp,
    {
        proof {
            let m = self.mant as nat;
            lemma_product(m, k as nat);
            lemma_rounded(m * k as nat, self.exp as nat, 0);
        }
        round(self.mant as u128 * k as u128, self.exp)
    }

    /// `self / k`, rounded.
    pub fn div(self, k: u32) -> (r: Binary64)
        requires
            self@.wf(),
            1 < k,
            self.exp <= 100,
        ensures
            r@ == self@.over(k as nat),
            r@.wf(),
    {
        let q = Binary64::quotient(self.mant, k);
        Binary64 { mant: q.mant, exp: q.exp + self.exp }
    }

    /// `self + k`, rounded.
    pub fn add(self, k: u32) -> (r: Binary64)
        requires
            self@.wf(),
            k <= 512,
            self.exp <= 100,
            excess((self.mant + k * pow2(self.exp as nat)) as nat) <= self.exp,
        ensures
            r@ == self@.plus(k as nat),
            r@.wf(),
            r.exp <= self.exp,
    {
        proof {
            lemma_rounded((self.mant + k * pow2(self.exp as nat)) as nat, self.exp as nat, 0);
        }
        round(self.mant as u128 + shifted(k, self.exp), self.exp)
    }

    /// `self - k`, rounded.
    pub fn sub(self, k: u32) -> (r: Binary64)
        requires
            self@.wf(),
            k <= 512,
            self.exp <= 100,
            1 <= self.exp || self.mant < LIMIT,
            !self@.below(k as nat),
        ensures
            r@ == self@.minus(k as nat),
            r@.wf(),
            r.exp <= self.exp,
            r.exp + 1 >= self.exp,
    {
        proof {
            let m = (self.mant - k * pow2(self.exp as nat)) as nat;
            lemma2_to64();
            lemma_excess(m, 1);
            lemma_rounded(m, self.exp as nat, 0);
        }
        round(self.mant as u128 - shifted(k, self.exp), self.exp)
    }

    /// `k - self`, rounded.
    pub fn sub_from(self, k: u32) -> (r: Binary64)
        requires
            self@.wf(),
            k <= 512,
            self.exp <= 100,
            self@.at_most(k as nat),
            excess((k * pow2(self.exp as nat) - self.mant) as nat) <= self.exp,
        ensures
            r@ == self@.subtracted_from(k as nat),
            r@.wf(),
            r.exp <= self.exp,
    {
        proof {
            lemma_rounded((k * pow2(self.exp as nat) - self.mant) as nat, self.exp as nat, 0);
        }
        round(shifted(k, self.exp) - self.mant as u128, self.exp)
    }

    /// Whether the number is less than `k`.
    pub fn less_than(self, k: u32) -> (r: bool)
        requires
            k <= 512,
            self.exp <= 100,
        ensures
            r == self@.below(k as nat),
    {
        (self.mant as u128) < shifted(k, self.exp)
    }

    /// Whether the number is at most `k`.
    pub fn no_more_than(self, k: u32) -> (r: bool)
        requires
            k <= 512,
            self.exp <= 100,
        ensures
            r == self@.at_most(k as nat),
    {
        (self.mant as u128) <= shifted(k, self.exp)
    }

    /// The whole part of the number, or 255 where it is larger.
    pub fn to_u8(self) -> (r: u8)
        ensures
            r == (if self@.whole() <= 255 {
                self@.whole()
            } else {
                255
            }),
    {
        let p: u128 = if self.exp <= 100 {
            power_of_two(self.exp)
        } else {
            proof {
                lemma2_to64();
                lemma_pow2_strictly_increases(64, self.exp as nat);
                lemma_whole(self@, 1);
            }
            return 0;
        };
        proof {
            lemma_pow2_pos(self.exp as nat);
        }
        let w: u128 = self.mant as u128 / p;
        if w <= 255 {
            w as u8
        } else {
            255
        }
    }
}

} // verus!
