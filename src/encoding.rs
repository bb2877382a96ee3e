//! Lanes as digit vectors: a 64-bit word is written with one digit per bit,
//! and the same digit vector read in base 2, 9 or 13 gives the lane's value
//! in that base.
use vstd::prelude::*;

verus! {

/// Bit `i` of the word `v`.
pub open spec fn bit(v: u64, i: int) -> u8 {
    ((v >> (i as u64)) & 1u64) as u8
}

/// Value of a little-endian digit vector read in `base`.
pub open spec fn digits_value(d: Seq<u8>, base: nat) -> nat
    decreases d.len(),
{
    if d.len() == 0 {
        0
    } else {
        d[0] as nat + base * digits_value(d.subrange(1, d.len() as int), base)
    }
}

/// Every digit of `d` lies in `[0, base)`.
pub open spec fn digits_in_range(d: Seq<u8>, base: nat) -> bool {
    forall|i: int| 0 <= i < d.len() ==> (#[trigger] d[i]) < base
}

/// The digit vector of `v`: one digit per bit, least significant first.
pub open spec fn lane_digits(v: u64) -> Seq<u8> {
    Seq::new(64, |i: int| bit(v, i))
}

/// `b ** e` over naturals.
pub open spec fn power(b: nat, e: nat) -> nat
    decreases e,
{
    if e == 0 {
        1
    } else {
        b * power(b, (e - 1) as nat)
    }
}

pub proof fn lemma_power_positive(b: nat, e: nat)
    requires
        b >= 1,
    ensures
        power(b, e) >= 1,
    decreases e,
{
    if e > 0 {
        lemma_power_positive(b, (e - 1) as nat);
        assert(b * power(b, (e - 1) as nat) >= 1) by (nonlinear_arith)
            requires
                b >= 1,
                power(b, (e - 1) as nat) >= 1,
        ;
    }
}

/// Appending a digit adds it at the next power of the base.
pub proof fn lemma_digits_value_push(d: Seq<u8>, x: u8, base: nat)
    ensures
        digits_value(d.push(x), base) == digits_value(d, base) + x * power(base, d.len()),
    decreases d.len(),
{
    let dp = d.push(x);
    assert(digits_value(dp, base) == dp[0] as nat + base * digits_value(
        dp.subrange(1, dp.len() as int),
        base,
    ));
    if d.len() == 0 {
        assert(dp.len() == 1 && dp[0] == x);
        let r = dp.subrange(1, dp.len() as int);
        assert(r.len() == 0);
        assert(digits_value(r, base) == 0);
        let vr = digits_value(r, base);
        assert(base * vr == 0) by (nonlinear_arith)
            requires
                vr == 0,
        ;
        assert(power(base, 0) == 1);
        assert(digits_value(dp, base) == x as nat);
        assert(digits_value(d, base) == 0);
        assert(x * power(base, 0) == x) by (nonlinear_arith)
            requires
                power(base, 0) == 1,
        ;
    } else {
        let t = d.subrange(1, d.len() as int);
        assert(dp[0] == d[0]);
        assert(dp.subrange(1, dp.len() as int) =~= t.push(x));
        lemma_digits_value_push(t, x, base);
        assert(power(base, d.len()) == base * power(base, t.len()));
        assert(digits_value(d, base) == d[0] as nat + base * digits_value(t, base));
        let vt = digits_value(t, base);
        let vtx = digits_value(t.push(x), base);
        let pt = power(base, t.len());
        assert(d[0] as nat + base * vtx == (d[0] as nat + base * vt) + x * (base * pt))
            by (nonlinear_arith)
            requires
                vtx == vt + x * pt,
        ;
        assert(digits_value(dp, base) == digits_value(d, base) + x * power(base, d.len()));
    }
}

/// Digits below `base` give a value below `base ** len`.
pub proof fn lemma_digits_value_bound(d: Seq<u8>, base: nat)
    requires
        digits_in_range(d, base),
    ensures
        digits_value(d, base) < power(base, d.len()),
    decreases d.len(),
{
    if d.len() > 0 {
        let t = d.subrange(1, d.len() as int);
        assert(digits_in_range(t, base)) by {
            assert forall|i: int| 0 <= i < t.len() implies #[trigger] t[i] < base by {
                assert(t[i] == d[i + 1]);
            }
        }
        lemma_digits_value_bound(t, base);
        let v = digits_value(t, base);
        let p = power(base, t.len());
        assert(d[0] < base);
        assert(d[0] + base * v < base * p) by (nonlinear_arith)
            requires
                d[0] < base,
                v < p,
                v + 1 <= p,
        ;
    }
}

/// Digits below `base` are determined by the value they give.
pub proof fn lemma_digits_unique(d: Seq<u8>, e: Seq<u8>, base: nat)
    requires
        base >= 2,
        d.len() == e.len(),
        digits_in_range(d, base),
        digits_in_range(e, base),
        digits_value(d, base) == digits_value(e, base),
    ensures
        d == e,
    decreases d.len(),
{
    if d.len() > 0 {
        let td = d.subrange(1, d.len() as int);
        let te = e.subrange(1, e.len() as int);
        let vd = digits_value(td, base);
        let ve = digits_value(te, base);
        let a = d[0] as int;
        let b = e[0] as int;
        assert(d[0] < base && e[0] < base);
        vstd::arithmetic::div_mod::lemma_mod_multiples_vanish(vd as int, a, base as int);
        vstd::arithmetic::div_mod::lemma_mod_multiples_vanish(ve as int, b, base as int);
        vstd::arithmetic::div_mod::lemma_small_mod(a as nat, base);
        vstd::arithmetic::div_mod::lemma_small_mod(b as nat, base);
        assert(a == b);
        assert(vd == ve) by (nonlinear_arith)
            requires
                a + base * vd == b + base * ve,
                a == b,
                base >= 2,
        ;
        assert(digits_in_range(td, base)) by {
            assert forall|i: int| 0 <= i < td.len() implies #[trigger] td[i] < base by {
                assert(td[i] == d[i + 1]);
            }
        }
        assert(digits_in_range(te, base)) by {
            assert forall|i: int| 0 <= i < te.len() implies #[trigger] te[i] < base by {
                assert(te[i] == e[i + 1]);
            }
        }
        lemma_digits_unique(td, te, base);
        assert(d =~= e) by {
            assert forall|i: int| 0 <= i < d.len() implies d[i] == e[i] by {
                if i > 0 {
                    assert(d[i] == td[i - 1]);
                    assert(e[i] == te[i - 1]);
                }
            }
        }
    }
}

pub proof fn lemma_power_monotonic(b: nat, e1: nat, e2: nat)
    requires
        b >= 1,
        e1 <= e2,
    ensures
        power(b, e1) <= power(b, e2),
    decreases e2,
{
    if e1 < e2 {
        lemma_power_monotonic(b, e1, (e2 - 1) as nat);
        lemma_power_positive(b, (e2 - 1) as nat);
        let p = power(b, (e2 - 1) as nat);
        assert(p <= b * p) by (nonlinear_arith)
            requires
                b >= 1,
                p >= 1,
        ;
    }
}

pub proof fn lemma_power_two_64()
    ensures
        power(2, 64) == 0x1_0000_0000_0000_0000,
{
    reveal_with_fuel(power, 65);
}

proof fn lemma_digits_value_step(d: Seq<u8>, i: int, base: nat)
    requires
        0 <= i < d.len(),
    ensures
        digits_value(d.subrange(i, d.len() as int), base) == d[i] as nat + base * digits_value(
            d.subrange(i + 1, d.len() as int),
            base,
        ),
{
    let s = d.subrange(i, d.len() as int);
    assert(s.subrange(1, s.len() as int) =~= d.subrange(i + 1, d.len() as int));
    assert(s[0] == d[i]);
}

proof fn lemma_shift_step(v: u64, i: u64)
    requires
        i < 64,
    ensures
        (v >> i) % 2 == (v >> i) & 1,
        i < 63 ==> (v >> i) / 2 == v >> (i + 1),
        i == 63 ==> (v >> i) / 2 == 0,
        v >> 0u64 == v,
{
    assert((v >> i) % 2 == (v >> i) & 1) by (bit_vector);
    assert(i < 63 ==> (v >> i) / 2 == v >> (i + 1)) by (bit_vector);
    assert(i == 63 ==> (v >> i) / 2 == 0) by (bit_vector);
    assert(v >> 0u64 == v) by (bit_vector);
}

proof fn lemma_value_step(v: int, dvp: int, p: int, w: int, b: int, dvn: int, pn: int, w2: int)
    requires
        v == dvp + p * w,
        w >= 0,
        b == w % 2,
        w2 == w / 2,
        dvn == dvp + b * p,
        pn == 2 * p,
    ensures
        v == dvn + pn * w2,
{
    assert(v == dvn + pn * w2) by (nonlinear_arith)
        requires
            v == dvp + p * w,
            w >= 0,
            b == w % 2,
            w2 == w / 2,
            dvn == dvp + b * p,
            pn == 2 * p,
    ;
}

pub proof fn lemma_lane_digits_range(v: u64)
    ensures
        digits_in_range(lane_digits(v), 2),
{
    let d = lane_digits(v);
    assert forall|i: int| 0 <= i < d.len() implies #[trigger] d[i] < 2 by {
        let k = i as u64;
        assert(((v >> k) & 1u64) < 2) by (bit_vector);
    }
}

/// The digit vector of a word: digit `i` is bit `i` of `v`.
pub fn bits_to_digits(v: u64) -> (r: Vec<u8>)
    ensures
        r@ == lane_digits(v),
        digits_value(r@, 2) == v,
        digits_in_range(r@, 2),
{
    let mut d: Vec<u8> = Vec::new();
    let mut w: u64 = v;
    let mut i: u64 = 0;
    proof {
        lemma_shift_step(v, 0);
        assert(digits_value(d@, 2) == 0);
        assert(power(2, 0) == 1);
        assert(v == 0 + 1 * v);
    }
    while i < 64
        invariant
            i <= 64,
            d@.len() == i,
            forall|j: int| 0 <= j < i ==> d@[j] == bit(v, j),
            i < 64 ==> w == v >> i,
            i == 64 ==> w == 0,
            v == digits_value(d@, 2) + power(2, i as nat) * w,
        decreases 64 - i,
    {
        proof {
            lemma_shift_step(v, i);
            lemma_digits_value_push(d@, (w % 2) as u8, 2);
            let p = power(2, i as nat);
            assert(power(2, (i + 1) as nat) == 2 * p);
            lemma_value_step(
                v as int,
                digits_value(d@, 2) as int,
                p as int,
                w as int,
                (w % 2) as int,
                digits_value(d@.push((w % 2) as u8), 2) as int,
                power(2, (i + 1) as nat) as int,
                (w / 2) as int,
            );
        }
        d.push((w % 2) as u8);
        w = w / 2;
        i = i + 1;
    }
    proof {
        assert(d@ =~= lane_digits(v));
        lemma_lane_digits_range(v);
        assert(digits_value(d@, 2) == v) by (nonlinear_arith)
            requires
                v == digits_value(d@, 2) + power(2, 64) * w,
                w == 0,
        ;
    }
    d
}

/// Reads a vector of 64 binary digits back into a word.
pub fn digits_to_bits(d: &Vec<u8>) -> (r: u64)
    requires
        d@.len() == 64,
        digits_in_range(d@, 2),
    ensures
        r == digits_value(d@, 2),
{
    let mut r: u64 = 0;
    let mut i: usize = 64;
    proof {
        assert(d@.subrange(64, 64) =~= Seq::<u8>::empty());
    }
    while i > 0
        invariant
            i <= 64,
            d@.len() == 64,
            digits_in_range(d@, 2),
            r == digits_value(d@.subrange(i as int, 64), 2),
        decreases i,
    {
        proof {
            lemma_digits_value_step(d@, i - 1, 2);
            let s = d@.subrange(i - 1, 64);
            assert(digits_in_range(s, 2)) by {
                assert forall|k: int| 0 <= k < s.len() implies #[trigger] s[k] < 2 by {
                    assert(s[k] == d@[i - 1 + k]);
                }
            }
            lemma_digits_value_bound(s, 2);
            lemma_power_monotonic(2, s.len(), 64);
            lemma_power_two_64();
        }
        r = r * 2 + d[i - 1] as u64;
        i = i - 1;
    }
    proof {
        assert(d@.subrange(0, 64) =~= d@);
    }
    r
}

/// Reading back the digits of a word gives the word; and for each base that
/// the lanes are written in, a digit vector whose digits are in range is the
/// only one with its value, so the encoding is a bijection onto such vectors.
pub proof fn lemma_round_trip(v: u64, base: nat, e: Seq<u8>)
    requires
        base == 2 || base == 9 || base == 13,
        e.len() == 64,
        digits_in_range(e, base),
        digits_value(e, base) == digits_value(lane_digits(v), base),
    ensures
        digits_value(lane_digits(v), 2) == v,
        digits_in_range(lane_digits(v), 2),
        e == lane_digits(v),
{
    let d = lane_digits(v);
    lemma_lane_digits_range(v);
    lemma_digits_of_word_value(v);
    lemma_digits_unique(e, d, base);
}

proof fn lemma_digits_prefix_value(v: u64, n: u64)
    requires
        n <= 64,
    ensures
        n < 64 ==> v == digits_value(lane_digits(v).subrange(0, n as int), 2) + power(2, n as nat)
            * (v >> n),
        n == 64 ==> v == digits_value(lane_digits(v), 2),
    decreases n,
{
    let d = lane_digits(v);
    if n == 0 {
        lemma_shift_step(v, 0);
        assert(d.subrange(0, 0) =~= Seq::<u8>::empty());
        assert(power(2, 0) == 1);
        assert(v == 0 + 1 * v);
    } else {
        let m = (n - 1) as u64;
        lemma_digits_prefix_value(v, m);
        lemma_shift_step(v, m);
        let w = v >> m;
        let pre = d.subrange(0, m as int);
        assert(bit(v, m as int) as int == w % 2);
        assert(d.subrange(0, n as int) =~= pre.push(bit(v, m as int)));
        lemma_digits_value_push(pre, bit(v, m as int), 2);
        let p = power(2, m as nat);
        assert(power(2, n as nat) == 2 * p);
        lemma_value_step(
            v as int,
            digits_value(pre, 2) as int,
            p as int,
            w as int,
            (w % 2) as int,
            digits_value(d.subrange(0, n as int), 2) as int,
            power(2, n as nat) as int,
            (w / 2) as int,
        );
        if n == 64 {
            assert(d.subrange(0, 64) =~= d);
            let pn = power(2, n as nat) as int;
            assert(pn * 0 == 0) by (nonlinear_arith);
        }
    }
}

proof fn lemma_digits_of_word_value(v: u64)
    ensures
        digits_value(lane_digits(v), 2) == v,
{
    lemma_digits_prefix_value(v, 64);
}

/// Bit `i` of `a ^ b` is the parity of the two bits.
pub proof fn lemma_bit_xor(a: u64, b: u64, i: int)
    requires
        0 <= i < 64,
    ensures
        bit(a ^ b, i) as int == (bit(a, i) + bit(b, i)) % 2,
        bit(a, i) < 2,
{
    let k = i as u64;
    assert(((a ^ b) >> k) & 1u64 == (((a >> k) & 1u64) + ((b >> k) & 1u64)) % 2) by (bit_vector);
    assert(((a >> k) & 1u64) < 2) by (bit_vector);
    assert(((b >> k) & 1u64) < 2) by (bit_vector);
    assert(((a ^ b) >> k) & 1u64 < 2) by (bit_vector);
}

/// Bit `i` of `!b & c` is set when bit `i` of `b` is clear and that of `c` is set.
pub proof fn lemma_bit_not_and(b: u64, c: u64, i: int)
    requires
        0 <= i < 64,
    ensures
        bit(!b & c, i) == (if bit(b, i) == 0 { bit(c, i) } else { 0 }),
{
    let k = i as u64;
    assert(((b >> k) & 1u64) < 2) by (bit_vector);
    assert(((c >> k) & 1u64) < 2) by (bit_vector);
    assert(((!b & c) >> k) & 1u64 < 2) by (bit_vector);
    assert(((b >> k) & 1u64) == 0 ==> ((!b & c) >> k) & 1u64 == (c >> k) & 1u64) by (bit_vector);
    assert(((b >> k) & 1u64) == 1 ==> ((!b & c) >> k) & 1u64 == 0) by (bit_vector);
}

/// Splitting a digit range at `m` splits its value: the high part is scaled
/// by `base ** (m - a)`.
pub proof fn lemma_digits_value_split(d: Seq<u8>, a: int, m: int, c: int, base: nat)
    requires
        0 <= a <= m <= c <= d.len(),
    ensures
        digits_value(d.subrange(a, c), base) == digits_value(d.subrange(a, m), base) + power(
            base,
            (m - a) as nat,
        ) * digits_value(d.subrange(m, c), base),
    decreases m - a,
{
    if a == m {
        assert(d.subrange(a, m) =~= Seq::<u8>::empty());
        assert(power(base, 0) == 1);
        let v = digits_value(d.subrange(m, c), base);
        assert(1 * v == v);
    } else {
        lemma_digits_value_split(d, a + 1, m, c, base);
        let s = d.subrange(a, c);
        let t = d.subrange(a, m);
        assert(s.subrange(1, s.len() as int) =~= d.subrange(a + 1, c));
        assert(t.subrange(1, t.len() as int) =~= d.subrange(a + 1, m));
        assert(s[0] == d[a] && t[0] == d[a]);
        let hi = digits_value(d.subrange(m, c), base);
        let lo1 = digits_value(d.subrange(a + 1, m), base);
        let pa = power(base, (m - a - 1) as nat);
        assert(power(base, (m - a) as nat) == base * pa);
        assert(base * (lo1 + pa * hi) == base * lo1 + (base * pa) * hi) by (nonlinear_arith);
    }
}

pub proof fn lemma_power_add(b: nat, m: nat, n: nat)
    ensures
        power(b, m + n) == power(b, m) * power(b, n),
    decreases n,
{
    if n == 0 {
        assert(power(b, 0) == 1);
        assert(power(b, m) * 1 == power(b, m));
    } else {
        lemma_power_add(b, m, (n - 1) as nat);
        assert(power(b, m + n) == b * power(b, (m + n - 1) as nat));
        assert(power(b, n) == b * power(b, (n - 1) as nat));
        let (pm, pn1) = (power(b, m), power(b, (n - 1) as nat));
        assert(b * (pm * pn1) == pm * (b * pn1)) by (nonlinear_arith);
    }
}

/// A single digit's value is the digit.
pub proof fn lemma_digits_value_single(d: Seq<u8>, base: nat)
    requires
        d.len() == 1,
    ensures
        digits_value(d, base) == d[0],
{
    let t = d.subrange(1, 1);
    assert(t =~= Seq::<u8>::empty());
    let z = digits_value(t, base);
    assert(z == 0);
    assert(base * z == 0) by (nonlinear_arith)
        requires
            z == 0,
    ;
}

/// Changing digit `i` to `x` changes the value by `(x - d[i]) * base ** i`.
pub proof fn lemma_digits_value_update(d: Seq<u8>, i: int, x: u8, base: nat)
    requires
        0 <= i < d.len(),
    ensures
        digits_value(d.update(i, x), base) == digits_value(d, base) + (x - d[i]) * power(
            base,
            i as nat,
        ),
{
    let e = d.update(i, x);
    let n = d.len() as int;
    lemma_digits_value_split(d, 0, i, n, base);
    lemma_digits_value_split(e, 0, i, n, base);
    lemma_digits_value_split(d, i, i + 1, n, base);
    lemma_digits_value_split(e, i, i + 1, n, base);
    assert(e.subrange(0, i) =~= d.subrange(0, i));
    assert(e.subrange(i + 1, n) =~= d.subrange(i + 1, n));
    assert(d.subrange(0, n) =~= d);
    assert(e.subrange(0, n) =~= e);
    lemma_digits_value_single(d.subrange(i, i + 1), base);
    lemma_digits_value_single(e.subrange(i, i + 1), base);
    let lo = digits_value(d.subrange(0, i), base);
    let hi = digits_value(d.subrange(i + 1, n), base);
    let pi = power(base, i as nat);
    let pw1 = power(base, 1);
    assert(pi * (x + pw1 * hi) == pi * (d[i] + pw1 * hi) + (x - d[i]) * pi) by (nonlinear_arith);
}

/// Adds `value * base ** pos` to a vector of digits below `base`, carrying
/// upwards; returns what is carried out past the last digit.
pub fn add_at(d: &mut Vec<u8>, pos: usize, value: u32, base: u8) -> (carry: u64)
    requires
        2 <= base <= 13,
        pos < old(d)@.len(),
        digits_in_range(old(d)@, base as nat),
    ensures
        final(d)@.len() == old(d)@.len(),
        digits_in_range(final(d)@, base as nat),
        digits_value(final(d)@, base as nat) + carry * power(base as nat, old(d)@.len())
            == digits_value(old(d)@, base as nat) + value * power(base as nat, pos as nat),
{
    let ghost d0 = d@;
    let n = d.len();
    let mut c: u64 = value as u64;
    let mut i: usize = pos;
    while i < n
        invariant
            2 <= base <= 13,
            pos <= i <= n,
            n == d@.len(),
            n == d0.len(),
            c <= value + 12,
            digits_in_range(d@, base as nat),
            digits_value(d@, base as nat) + c * power(base as nat, i as nat) == digits_value(
                d0,
                base as nat,
            ) + value * power(base as nat, pos as nat),
        decreases n - i,
    {
        let t: u64 = d[i] as u64 + c;
        let digit = (t % base as u64) as u8;
        proof {
            let b = base as nat;
            let bi = base as int;
            let tt = t as int;
            lemma_digits_value_update(d@, i as int, digit, b);
            let pi = power(b, i as nat) as int;
            assert(power(b, (i + 1) as nat) == b * power(b, i as nat));
            assert(t / (base as u64) == tt / bi && t % (base as u64) == tt % bi);
            assert(tt == bi * (tt / bi) + tt % bi) by (nonlinear_arith)
                requires
                    bi >= 2,
            ;
            assert((digit - d@[i as int]) * pi + (tt / bi) * (bi * pi) == c * pi) by (nonlinear_arith)
                requires
                    digit == tt % bi,
                    tt == d@[i as int] + c,
                    tt == bi * (tt / bi) + tt % bi,
            ;
            assert(tt / bi <= value + 12) by (nonlinear_arith)
                requires
                    0 <= tt <= 12 + c,
                    c <= value + 12,
                    bi >= 2,
            ;
            let nd = d@.update(i as int, digit);
            assert(digits_in_range(nd, b)) by {
                assert forall|j: int| 0 <= j < nd.len() implies #[trigger] nd[j] < b by {
                    if j != i as int {
                        assert(nd[j] == d@[j]);
                    }
                }
            }
        }
        d.set(i, digit);
        c = t / base as u64;
        i = i + 1;
    }
    c
}

/// Whether two digit vectors are equal.
pub fn digits_equal(a: &Vec<u8>, b: &Vec<u8>) -> (r: bool)
    ensures
        r == (a@ == b@),
{
    if a.len() != b.len() {
        return false;
    }
    let mut i: usize = 0;
    while i < a.len()
        invariant
            i <= a@.len(),
            a@.len() == b@.len(),
            forall|j: int| 0 <= j < i ==> a@[j] == b@[j],
        decreases a@.len() - i,
    {
        if a[i] != b[i] {
            return false;
        }
        i = i + 1;
    }
    proof {
        assert(a@ =~= b@);
    }
    true
}

/// `n` zero digits.
pub fn zero_digits(n: usize) -> (r: Vec<u8>)
    ensures
        r@.len() == n,
        forall|i: int| 0 <= i < n ==> #[trigger] r@[i] == 0,
        digits_value(r@, 13) == 0,
        digits_value(r@, 9) == 0,
{
    let mut r: Vec<u8> = Vec::new();
    let mut i: usize = 0;
    proof {
        assert(digits_value(r@, 13) == 0);
        assert(digits_value(r@, 9) == 0);
    }
    while i < n
        invariant
            i <= n,
            r@.len() == i,
            forall|j: int| 0 <= j < i ==> #[trigger] r@[j] == 0,
            digits_value(r@, 13) == 0,
            digits_value(r@, 9) == 0,
        decreases n - i,
    {
        proof {
            lemma_digits_value_push(r@, 0, 13);
            lemma_digits_value_push(r@, 0, 9);
        }
        r.push(0);
        i = i + 1;
    }
    r
}

} // verus!
