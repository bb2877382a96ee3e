//! The round steps on digit-encoded states. A state is 25 lanes of digits;
//! the steps add digits where the bitwise permutation XORs bits, and the
//! parity of a digit (or a fixed table on it) gives back the bit.
use vstd::prelude::*;
use crate::encoding::{bit, lane_digits, lemma_bit_not_and, lemma_bit_xor};
use crate::keccak::{chi_spec, column_parity, lemma_bit_rotl, rotl, theta_spec};

verus! {

/// The digits of every lane of a digit-encoded state.
pub open spec fn lanes_view(s: &Vec<Vec<u8>>) -> Seq<Seq<u8>> {
    Seq::new(s@.len(), |k: int| s@[k]@)
}

/// The digit-encoded form of a state of words.
pub open spec fn state_digits(a: Seq<u64>) -> Seq<Seq<u8>> {
    Seq::new(25, |k: int| lane_digits(a[k]))
}

/// 25 lanes of `len` digits, each digit at most `max`.
pub open spec fn state_wf(s: Seq<Seq<u8>>, len: nat, max: nat) -> bool {
    &&& s.len() == 25
    &&& forall|k: int| 0 <= k < 25 ==> (#[trigger] s[k]).len() == len
    &&& forall|k: int, i: int| 0 <= k < 25 && 0 <= i < len ==> (#[trigger] s[k][i]) <= max
}

/// Sum of digit `i` over the five lanes of column `x`.
pub open spec fn column_sum(s: Seq<Seq<u8>>, x: int, i: int) -> int {
    s[5 * x][i] + s[5 * x + 1][i] + s[5 * x + 2][i] + s[5 * x + 3][i] + s[5 * x + 4][i]
}

/// Digit `i` (of 65) of lane `k` after Theta: the lane plus the left
/// column's sum plus the right column's sum shifted up one position.
pub open spec fn theta_digit(s: Seq<Seq<u8>>, k: int, i: int) -> int {
    (if i < 64 {
        s[k][i] + column_sum(s, (k / 5 + 4) % 5, i)
    } else {
        0
    }) + (if i >= 1 {
        column_sum(s, (k / 5 + 1) % 5, i - 1)
    } else {
        0
    })
}

/// Theta in base 13: `out = a + C[x-1] + 13 * C[x+1]` on every lane, where
/// `C` holds the column sums. The result has 65 digits, none above 11.
pub fn theta_arith(s: &Vec<Vec<u8>>) -> (r: Vec<Vec<u8>>)
    requires
        state_wf(lanes_view(s), 64, 1),
    ensures
        state_wf(lanes_view(&r), 65, 11),
        lanes_view(&r) == theta_state_spec(lanes_view(s)),
        forall|k: int, i: int|
            0 <= k < 25 && 0 <= i < 65 ==> #[trigger] r@[k]@[i] == theta_digit(lanes_view(s), k, i),
{
    let ghost sv = lanes_view(s);
    assert(forall|k: int| 0 <= k < 25 ==> #[trigger] s@[k]@ == sv[k]);
    let mut cs: Vec<Vec<u8>> = Vec::new();
    let mut x: usize = 0;
    while x < 5
        invariant
            x <= 5,
            sv == lanes_view(s),
            state_wf(sv, 64, 1),
            forall|k: int| 0 <= k < 25 ==> #[trigger] s@[k]@ == sv[k],
            cs@.len() == x,
            forall|j: int| 0 <= j < x ==> (#[trigger] cs@[j]@).len() == 64,
            forall|j: int, i: int|
                0 <= j < x && 0 <= i < 64 ==> #[trigger] cs@[j]@[i] == column_sum(sv, j, i),
        decreases 5 - x,
    {
        let mut col: Vec<u8> = Vec::new();
        let mut i: usize = 0;
        while i < 64
            invariant
                x < 5,
                i <= 64,
                sv == lanes_view(s),
                state_wf(sv, 64, 1),
                forall|k: int| 0 <= k < 25 ==> #[trigger] s@[k]@ == sv[k],
                col@.len() == i,
                forall|j: int| 0 <= j < i ==> #[trigger] col@[j] == column_sum(sv, x as int, j),
            decreases 64 - i,
        {
            assert(sv[5 * x as int][i as int] <= 1 && sv[5 * x + 1][i as int] <= 1 && sv[5 * x
                + 2][i as int] <= 1 && sv[5 * x + 3][i as int] <= 1 && sv[5 * x + 4][i as int]
                <= 1);
            col.push(
                s[5 * x][i] + s[5 * x + 1][i] + s[5 * x + 2][i] + s[5 * x + 3][i] + s[5 * x
                    + 4][i],
            );
            i = i + 1;
        }
        cs.push(col);
        x = x + 1;
    }
    let mut r: Vec<Vec<u8>> = Vec::new();
    let mut k: usize = 0;
    while k < 25
        invariant
            k <= 25,
            sv == lanes_view(s),
            state_wf(sv, 64, 1),
            forall|q: int| 0 <= q < 25 ==> #[trigger] s@[q]@ == sv[q],
            cs@.len() == 5,
            forall|j: int| 0 <= j < 5 ==> (#[trigger] cs@[j]@).len() == 64,
            forall|j: int, i: int|
                0 <= j < 5 && 0 <= i < 64 ==> #[trigger] cs@[j]@[i] == column_sum(sv, j, i),
            r@.len() == k,
            forall|q: int| 0 <= q < k ==> (#[trigger] r@[q]@).len() == 65,
            forall|q: int, i: int|
                0 <= q < k && 0 <= i < 65 ==> #[trigger] r@[q]@[i] == theta_digit(sv, q, i),
        decreases 25 - k,
    {
        let left = (k / 5 + 4) % 5;
        let right = (k / 5 + 1) % 5;
        let mut lane: Vec<u8> = Vec::new();
        let mut i: usize = 0;
        while i < 65
            invariant
                k < 25,
                left == (k / 5 + 4) % 5,
                right == (k / 5 + 1) % 5,
                i <= 65,
                sv == lanes_view(s),
                state_wf(sv, 64, 1),
                forall|q: int| 0 <= q < 25 ==> #[trigger] s@[q]@ == sv[q],
                cs@.len() == 5,
                forall|j: int| 0 <= j < 5 ==> (#[trigger] cs@[j]@).len() == 64,
                forall|j: int, t: int|
                    0 <= j < 5 && 0 <= t < 64 ==> #[trigger] cs@[j]@[t] == column_sum(sv, j, t),
                lane@.len() == i,
                forall|j: int| 0 <= j < i ==> #[trigger] lane@[j] == theta_digit(sv, k as int, j),
            decreases 65 - i,
        {
            let low: u8 = if i < 64 {
                assert(sv[k as int][i as int] <= 1);
                assert(column_sum(sv, left as int, i as int) <= 5);
                s[k][i] + cs[left][i]
            } else {
                0
            };
            let high: u8 = if i >= 1 {
                assert(column_sum(sv, right as int, i - 1) <= 5);
                cs[right][i - 1]
            } else {
                0
            };
            lane.push(low + high);
            i = i + 1;
        }
        r.push(lane);
        k = k + 1;
    }
    proof {
        let rv = lanes_view(&r);
        assert forall|q: int, i: int| 0 <= q < 25 && 0 <= i < 65 implies #[trigger] rv[q][i]
            <= 11 by {
            assert(rv[q] == r@[q]@);
            assert(theta_digit(sv, q, i) <= 11);
        }
        assert forall|q: int| 0 <= q < 25 implies #[trigger] rv[q] =~= theta_state_spec(sv)[q] by {
            assert(rv[q] == r@[q]@);
        }
        assert(rv =~= theta_state_spec(sv));
    }
    r
}

/// Bit `i` of a column parity is the parity of the column's digit sum.
proof fn lemma_column_parity_bit(a: Seq<u64>, x: int, i: int)
    requires
        a.len() == 25,
        0 <= x < 5,
        0 <= i < 64,
    ensures
        bit(column_parity(a, x), i) as int == column_sum(state_digits(a), x, i) % 2,
        0 <= column_sum(state_digits(a), x, i) <= 5,
{
    let s = state_digits(a);
    let (a0, a1, a2, a3, a4) = (a[5 * x], a[5 * x + 1], a[5 * x + 2], a[5 * x + 3], a[5 * x + 4]);
    lemma_bit_xor(a0, a1, i);
    lemma_bit_xor(a0 ^ a1, a2, i);
    lemma_bit_xor(a0 ^ a1 ^ a2, a3, i);
    lemma_bit_xor(a0 ^ a1 ^ a2 ^ a3, a4, i);
    lemma_bit_xor(a1, a0, i);
    lemma_bit_xor(a2, a0, i);
    lemma_bit_xor(a3, a0, i);
    lemma_bit_xor(a4, a0, i);
    assert(s[5 * x][i] == bit(a0, i));
    assert(s[5 * x + 1][i] == bit(a1, i));
    assert(s[5 * x + 2][i] == bit(a2, i));
    assert(s[5 * x + 3][i] == bit(a3, i));
    assert(s[5 * x + 4][i] == bit(a4, i));
}

proof fn lemma_theta_lane_bit(a: Seq<u64>, k: int, i: int)
    requires
        a.len() == 25,
        0 <= k < 25,
        0 <= i < 64,
    ensures
        (if i >= 1 {
            theta_digit(state_digits(a), k, i)
        } else {
            theta_digit(state_digits(a), k, 0) + theta_digit(state_digits(a), k, 64)
        }) % 2 == bit(theta_spec(a)[k], i) as int,
{
    let s = state_digits(a);
    let xl = (k / 5 + 4) % 5;
    let xr = (k / 5 + 1) % 5;
    let cl = column_parity(a, xl);
    let cr = column_parity(a, xr);
    let j = (i + 64 - 1) % 64;
    lemma_column_parity_bit(a, xl, i);
    lemma_column_parity_bit(a, xr, j);
    lemma_bit_rotl(cr, 1, i);
    lemma_bit_xor(cl, rotl(cr, 1), i);
    lemma_bit_xor(a[k], cl ^ rotl(cr, 1), i);
    lemma_bit_xor(cr, cl, j);
    assert(s[k][i] == bit(a[k], i));
    assert(theta_spec(a)[k] == a[k] ^ (cl ^ rotl(cr, 1)));
    if i == 0 {
        assert(j == 63);
    } else {
        assert(j == i - 1);
    }
}

/// Theta on digits agrees with Theta on words: digit `i` of each lane has
/// the parity of bit `i` of the bitwise result for `1 <= i < 64`, and the
/// two digits at the ends of the 65-digit lane together give bit 0.
pub proof fn lemma_theta_correct(a: Seq<u64>)
    requires
        a.len() == 25,
    ensures
        forall|k: int, i: int|
            0 <= k < 25 && 1 <= i < 64 ==> #[trigger] theta_digit(state_digits(a), k, i) % 2
                == bit(theta_spec(a)[k], i) as int,
        forall|k: int|
            0 <= k < 25 ==> (theta_digit(state_digits(a), k, 0) + theta_digit(
                state_digits(a),
                k,
                64,
            )) % 2 == bit(#[trigger] theta_spec(a)[k], 0) as int,
{
    let s = state_digits(a);
    assert forall|k: int, i: int| 0 <= k < 25 && 1 <= i < 64 implies #[trigger] theta_digit(
        s,
        k,
        i,
    ) % 2 == bit(theta_spec(a)[k], i) as int by {
        lemma_theta_lane_bit(a, k, i);
    }
    assert forall|k: int| 0 <= k < 25 implies (theta_digit(s, k, 0) + theta_digit(s, k, 64)) % 2
        == bit(#[trigger] theta_spec(a)[k], 0) as int by {
        lemma_theta_lane_bit(a, k, 0);
    }
}

/// The bit that a base-9 digit `2a + b + 3c + 2d` stands for.
pub open spec fn b9_bit(x: int) -> u8 {
    if x == 2 || x == 3 || x == 6 || x == 7 {
        1
    } else {
        0
    }
}

/// Reduces a base-9 digit to the bit it stands for.
pub fn convert_b9_coef(x: u8) -> (r: u8)
    requires
        x < 9,
    ensures
        r == b9_bit(x as int),
{
    if x == 2 || x == 3 || x == 6 || x == 7 {
        1
    } else {
        0
    }
}

/// Digit `i` of lane `k` after Xi in base 9: `2a + b + 3c` over the lane and
/// the next two lanes of its row.
pub open spec fn xi_digit(s: Seq<Seq<u8>>, k: int, i: int) -> int {
    2 * s[k][i] + s[5 * ((k / 5 + 1) % 5) + k % 5][i] + 3 * s[5 * ((k / 5 + 2) % 5) + k % 5][i]
}

/// Xi in base 9 on a state of binary digits.
pub fn xi_arith(s: &Vec<Vec<u8>>) -> (r: Vec<Vec<u8>>)
    requires
        state_wf(lanes_view(s), 64, 1),
    ensures
        state_wf(lanes_view(&r), 64, 6),
        lanes_view(&r) == xi_state_spec(lanes_view(s)),
        forall|k: int, i: int|
            0 <= k < 25 && 0 <= i < 64 ==> #[trigger] r@[k]@[i] == xi_digit(lanes_view(s), k, i),
{
    let ghost sv = lanes_view(s);
    assert(forall|k: int| 0 <= k < 25 ==> #[trigger] s@[k]@ == sv[k]);
    let mut r: Vec<Vec<u8>> = Vec::new();
    let mut k: usize = 0;
    while k < 25
        invariant
            k <= 25,
            sv == lanes_view(s),
            state_wf(sv, 64, 1),
            forall|q: int| 0 <= q < 25 ==> #[trigger] s@[q]@ == sv[q],
            r@.len() == k,
            forall|q: int| 0 <= q < k ==> (#[trigger] r@[q]@).len() == 64,
            forall|q: int, i: int|
                0 <= q < k && 0 <= i < 64 ==> #[trigger] r@[q]@[i] == xi_digit(sv, q, i),
        decreases 25 - k,
    {
        let kb = 5 * ((k / 5 + 1) % 5) + k % 5;
        let kc = 5 * ((k / 5 + 2) % 5) + k % 5;
        let mut lane: Vec<u8> = Vec::new();
        let mut i: usize = 0;
        while i < 64
            invariant
                k < 25,
                kb == 5 * ((k / 5 + 1) % 5) + k % 5,
                kc == 5 * ((k / 5 + 2) % 5) + k % 5,
                i <= 64,
                sv == lanes_view(s),
                state_wf(sv, 64, 1),
                forall|q: int| 0 <= q < 25 ==> #[trigger] s@[q]@ == sv[q],
                lane@.len() == i,
                forall|j: int| 0 <= j < i ==> #[trigger] lane@[j] == xi_digit(sv, k as int, j),
            decreases 64 - i,
        {
            assert(sv[k as int][i as int] <= 1 && sv[kb as int][i as int] <= 1 && sv[kc as int][i
                as int] <= 1);
            lane.push(2 * s[k][i] + s[kb][i] + 3 * s[kc][i]);
            i = i + 1;
        }
        r.push(lane);
        k = k + 1;
    }
    proof {
        let rv = lanes_view(&r);
        assert forall|q: int, i: int| 0 <= q < 25 && 0 <= i < 64 implies #[trigger] rv[q][i]
            <= 6 by {
            assert(rv[q] == r@[q]@);
            assert(sv[q][i] <= 1);
            assert(sv[5 * ((q / 5 + 1) % 5) + q % 5][i] <= 1);
            assert(sv[5 * ((q / 5 + 2) % 5) + q % 5][i] <= 1);
        }
        assert forall|q: int| 0 <= q < 25 implies #[trigger] rv[q] =~= xi_state_spec(sv)[q] by {
            assert(rv[q] == r@[q]@);
        }
        assert(rv =~= xi_state_spec(sv));
    }
    r
}

/// Adds `weight` times the bits of `w` to the digits of lane `k`.
pub open spec fn add_word_digits(s: Seq<Seq<u8>>, k: int, w: u64, weight: int) -> Seq<Seq<u8>> {
    s.update(k, Seq::new(64, |i: int| (s[k][i] + weight * bit(w, i)) as u8))
}

/// Adds `weight` times the bits of `w` to the digits of lane `k`; the other
/// lanes are kept.
fn add_word(s: &mut Vec<Vec<u8>>, k: usize, w: u64, weight: u8, max: Ghost<nat>)
    requires
        k < 25,
        state_wf(lanes_view(old(s)), 64, max@),
        max@ + weight <= 255,
    ensures
        lanes_view(final(s)) == add_word_digits(lanes_view(old(s)), k as int, w, weight as int),
        state_wf(lanes_view(final(s)), 64, (max@ + weight) as nat),
{
    let ghost sv = lanes_view(s);
    let mut lane: Vec<u8> = Vec::new();
    let mut i: usize = 0;
    assert(s@[k as int]@ == sv[k as int]);
    while i < 64
        invariant
            k < 25,
            i <= 64,
            sv == lanes_view(s),
            state_wf(sv, 64, max@),
            s@[k as int]@ == sv[k as int],
            s@[k as int]@.len() == 64,
            max@ + weight <= 255,
            lane@.len() == i,
            forall|j: int|
                0 <= j < i ==> #[trigger] lane@[j] == (sv[k as int][j] + weight * bit(w, j)) as u8,
            forall|j: int| 0 <= j < i ==> #[trigger] lane@[j] <= max@ + weight,
        decreases 64 - i,
    {
        let b = ((w >> (i as u64)) & 1) as u8;
        proof {
            assert(b == bit(w, i as int));
            crate::encoding::lemma_bit_xor(w, w, i as int);
            assert(s@[k as int]@[i as int] <= max@);
            assert(weight * b <= weight) by (nonlinear_arith)
                requires
                    b < 2,
            ;
        }
        lane.push(s[k][i] + weight * b);
        i = i + 1;
    }
    s.set(k, lane);
    proof {
        let nv = lanes_view(s);
        let target = add_word_digits(sv, k as int, w, weight as int);
        assert(nv.len() == 25);
        assert forall|q: int| 0 <= q < 25 implies #[trigger] nv[q] == target[q] by {
            if q == k as int {
                assert(nv[q] =~= target[q]);
            } else {
                assert(nv[q] == sv[q]);
            }
        }
        assert(nv =~= target);
        assert forall|q: int, j: int| 0 <= q < 25 && 0 <= j < 64 implies #[trigger] nv[q][j]
            <= max@ + weight by {
            if q != k as int {
                assert(nv[q] == sv[q]);
            }
        }
    }
}

/// Iota in base 9: lane 0 gets twice the bits of the round constant.
pub fn iota_b9(s: &mut Vec<Vec<u8>>, rc: u64)
    requires
        state_wf(lanes_view(old(s)), 64, 6),
    ensures
        lanes_view(final(s)) == add_word_digits(lanes_view(old(s)), 0, rc, 2),
        state_wf(lanes_view(final(s)), 64, 8),
{
    add_word(s, 0, rc, 2, Ghost(6));
}

/// Iota in base 13: lane 0 gets the bits of the round constant.
pub fn iota_b13(s: &mut Vec<Vec<u8>>, rc: u64)
    requires
        state_wf(lanes_view(old(s)), 64, 1),
    ensures
        lanes_view(final(s)) == add_word_digits(lanes_view(old(s)), 0, rc, 1),
        state_wf(lanes_view(final(s)), 64, 2),
{
    add_word(s, 0, rc, 1, Ghost(1));
}

/// The digits after absorbing `next`: each of the first 17 lanes gets twice
/// the bits of its word of `next`.
pub open spec fn absorb_digits(s: Seq<Seq<u8>>, next: Seq<u64>) -> Seq<Seq<u8>> {
    Seq::new(
        25,
        |k: int|
            if k < 17 {
                Seq::new(64, |i: int| (s[k][i] + 2 * bit(next[k], i)) as u8)
            } else {
                s[k]
            },
    )
}

/// Absorb in base 9: `out = in + 2 * next_input` on the first 17 lanes.
pub fn absorb(s: &mut Vec<Vec<u8>>, next: &Vec<u64>)
    requires
        state_wf(lanes_view(old(s)), 64, 6),
        next@.len() == 17,
    ensures
        lanes_view(final(s)) == absorb_digits(lanes_view(old(s)), next@),
        state_wf(lanes_view(final(s)), 64, 8),
{
    let ghost s0 = lanes_view(s);
    let mut k: usize = 0;
    while k < 17
        invariant
            k <= 17,
            next@.len() == 17,
            state_wf(s0, 64, 6),
            state_wf(lanes_view(s), 64, if k == 0 { 6nat } else { 8nat }),
            forall|q: int, i: int|
                0 <= q < 25 && 0 <= i < 64 ==> #[trigger] lanes_view(s)[q][i] == (if q < k {
                    (s0[q][i] + 2 * bit(next@[q], i)) as u8
                } else {
                    s0[q][i]
                }),
        decreases 17 - k,
    {
        let ghost before = lanes_view(s);
        proof {
            if k == 0 {
                assert forall|q: int, i: int| 0 <= q < 25 && 0 <= i < 64 implies #[trigger] before[q][i]
                    <= 6 by {
                    assert(before[q][i] == s0[q][i]);
                }
            } else {
                assert forall|q: int, i: int| 0 <= q < 25 && 0 <= i < 64 && q >= k implies #[trigger] before[q][i]
                    <= 6 by {
                    assert(before[q][i] == s0[q][i]);
                }
            }
        }
        add_word(s, k, next[k], 2, Ghost(if k == 0 { 6 } else { 8 }));
        proof {
            let after = lanes_view(s);
            assert(state_wf(after, 64, 8)) by {
                assert forall|q: int, i: int| 0 <= q < 25 && 0 <= i < 64 implies #[trigger] after[q][i]
                    <= 8 by {
                    if q == k as int {
                        assert(before[q][i] <= 6);
                        crate::encoding::lemma_bit_xor(next@[q], next@[q], i);
                    } else {
                        assert(after[q][i] == before[q][i]);
                    }
                }
            }
        }
        k = k + 1;
    }
    proof {
        let fv = lanes_view(s);
        let target = absorb_digits(s0, next@);
        assert forall|q: int| 0 <= q < 25 implies #[trigger] fv[q] =~= target[q] by {}
        assert(fv =~= target);
    }
}

/// Converts every digit of a base-9 state to a binary digit of base 13.
pub fn convert_b9_state_to_b13(s: &Vec<Vec<u8>>) -> (r: Vec<Vec<u8>>)
    requires
        state_wf(lanes_view(s), 64, 8),
    ensures
        state_wf(lanes_view(&r), 64, 1),
        lanes_view(&r) == conv_state_spec(lanes_view(s)),
        forall|k: int, i: int|
            0 <= k < 25 && 0 <= i < 64 ==> #[trigger] r@[k]@[i] == b9_bit(
                lanes_view(s)[k][i] as int,
            ),
{
    let ghost sv = lanes_view(s);
    assert(forall|k: int| 0 <= k < 25 ==> #[trigger] s@[k]@ == sv[k]);
    let mut r: Vec<Vec<u8>> = Vec::new();
    let mut k: usize = 0;
    while k < 25
        invariant
            k <= 25,
            sv == lanes_view(s),
            state_wf(sv, 64, 8),
            forall|q: int| 0 <= q < 25 ==> #[trigger] s@[q]@ == sv[q],
            r@.len() == k,
            forall|q: int| 0 <= q < k ==> (#[trigger] r@[q]@).len() == 64,
            forall|q: int, i: int|
                0 <= q < k && 0 <= i < 64 ==> #[trigger] r@[q]@[i] == b9_bit(sv[q][i] as int),
        decreases 25 - k,
    {
        let mut lane: Vec<u8> = Vec::new();
        let mut i: usize = 0;
        while i < 64
            invariant
                k < 25,
                i <= 64,
                sv == lanes_view(s),
                state_wf(sv, 64, 8),
                forall|q: int| 0 <= q < 25 ==> #[trigger] s@[q]@ == sv[q],
                lane@.len() == i,
                forall|j: int| 0 <= j < i ==> #[trigger] lane@[j] == b9_bit(sv[k as int][j] as int),
            decreases 64 - i,
        {
            assert(sv[k as int][i as int] <= 8);
            lane.push(convert_b9_coef(s[k][i]));
            i = i + 1;
        }
        r.push(lane);
        k = k + 1;
    }
    proof {
        let rv = lanes_view(&r);
        assert forall|q: int, i: int| 0 <= q < 25 && 0 <= i < 64 implies #[trigger] rv[q][i]
            <= 1 by {
            assert(rv[q] == r@[q]@);
        }
        assert forall|q: int| 0 <= q < 25 implies #[trigger] rv[q] =~= conv_state_spec(sv)[q] by {
            assert(rv[q] == r@[q]@);
        }
        assert(rv =~= conv_state_spec(sv));
    }
    r
}

/// The base-9 digit `2a + b + 3c + 2d` of bits `a, b, c, d` stands for
/// `a ^ (!b & c) ^ d`.
pub proof fn lemma_b9_digit(a: int, b: int, c: int, d: int)
    requires
        0 <= a <= 1,
        0 <= b <= 1,
        0 <= c <= 1,
        0 <= d <= 1,
    ensures
        b9_bit(2 * a + b + 3 * c + 2 * d) as int == (a + (if b == 0 {
            c
        } else {
            0
        }) + d) % 2,
{
}

/// Xi on digits agrees with Chi on words: each base-9 digit reduces to the
/// bit of the bitwise result.
pub proof fn lemma_xi_correct(a: Seq<u64>)
    requires
        a.len() == 25,
    ensures
        forall|k: int, i: int|
            0 <= k < 25 && 0 <= i < 64 ==> b9_bit(#[trigger] xi_digit(state_digits(a), k, i))
                == bit(chi_spec(a)[k], i),
{
    let s = state_digits(a);
    assert forall|k: int, i: int| 0 <= k < 25 && 0 <= i < 64 implies b9_bit(
        #[trigger] xi_digit(s, k, i),
    ) == bit(chi_spec(a)[k], i) by {
        let kb = 5 * ((k / 5 + 1) % 5) + k % 5;
        let kc = 5 * ((k / 5 + 2) % 5) + k % 5;
        lemma_bit_not_and(a[kb], a[kc], i);
        lemma_bit_xor(a[k], !a[kb] & a[kc], i);
        lemma_bit_xor(a[kb], a[kc], i);
        lemma_bit_xor(a[kc], a[kb], i);
        lemma_b9_digit(bit(a[k], i) as int, bit(a[kb], i) as int, bit(a[kc], i) as int, 0);
        assert(s[k][i] == bit(a[k], i));
        assert(s[kb][i] == bit(a[kb], i));
        assert(s[kc][i] == bit(a[kc], i));
        assert(chi_spec(a)[k] == a[k] ^ (!a[kb] & a[kc]));
    }
}

/// Theta on a whole digit state.
pub open spec fn theta_state_spec(s: Seq<Seq<u8>>) -> Seq<Seq<u8>> {
    Seq::new(25, |k: int| Seq::new(65, |i: int| theta_digit(s, k, i) as u8))
}

/// Xi on a whole digit state.
pub open spec fn xi_state_spec(s: Seq<Seq<u8>>) -> Seq<Seq<u8>> {
    Seq::new(25, |k: int| Seq::new(64, |i: int| xi_digit(s, k, i) as u8))
}

/// A base-9 state with each digit reduced to the binary digit it stands for.
pub open spec fn conv_state_spec(s: Seq<Seq<u8>>) -> Seq<Seq<u8>> {
    Seq::new(25, |k: int| Seq::new(64, |i: int| b9_bit(s[k][i] as int)))
}

/// A copy of a digit state, lane by lane.
pub fn copy_state(s: &Vec<Vec<u8>>) -> (r: Vec<Vec<u8>>)
    ensures
        lanes_view(&r) == lanes_view(s),
{
    let mut r: Vec<Vec<u8>> = Vec::new();
    let mut k: usize = 0;
    while k < s.len()
        invariant
            k <= s@.len(),
            r@.len() == k,
            forall|q: int| 0 <= q < k ==> #[trigger] r@[q]@ == s@[q]@,
        decreases s@.len() - k,
    {
        r.push(s[k].clone());
        k = k + 1;
    }
    proof {
        assert(lanes_view(&r) =~= lanes_view(s));
    }
    r
}

} // verus!
