//! The arithmetized rounds compute Keccak-f: reducing their digits gives
//! the bits of the bitwise permutation.
use vstd::prelude::*;
use crate::arith::{
    absorb_digits, add_word_digits, b9_bit, conv_state_spec, lemma_b9_digit, lemma_theta_correct,
    lemma_xi_correct, state_digits, state_wf, theta_digit, theta_state_spec, xi_digit,
    xi_state_spec,
};
use crate::circuit::{permute_spec, round_b9_spec, rounds_arith_spec};
use crate::common::{rotation_offset, round_constant_spec};
use crate::encoding::{bit, lane_digits, lemma_bit_xor, lemma_lane_digits_range};
use crate::keccak::{
    chi_spec, keccak_f_spec, lemma_bit_rotl, pi_spec, rho_spec, rotl, round_spec,
    rounds_spec, theta_spec,
};
use crate::pi::pi_state_spec;
use crate::rho_checks::rho_state_spec;

verus! {

proof fn lemma_state_digits_wf(a: Seq<u64>)
    requires
        a.len() == 25,
    ensures
        state_wf(state_digits(a), 64, 1),
{
    let s = state_digits(a);
    assert forall|k: int, i: int| 0 <= k < 25 && 0 <= i < 64 implies #[trigger] s[k][i] <= 1 by {
        lemma_lane_digits_range(a[k]);
        assert(s[k] == lane_digits(a[k]));
    }
}

proof fn lemma_theta_digit_bound(s: Seq<Seq<u8>>, k: int, i: int)
    requires
        state_wf(s, 64, 1),
        0 <= k < 25,
        0 <= i < 65,
    ensures
        0 <= theta_digit(s, k, i) <= 11,
        0 <= theta_digit(s, k, 0) + theta_digit(s, k, 64) <= 11,
{
    let xl = 5 * ((k / 5 + 4) % 5);
    let xr = 5 * ((k / 5 + 1) % 5);
    assert(s[k][0] <= 1);
    assert(s[xl][0] <= 1 && s[xl + 1][0] <= 1 && s[xl + 2][0] <= 1 && s[xl + 3][0] <= 1 && s[xl
        + 4][0] <= 1);
    assert(s[xr][63] <= 1 && s[xr + 1][63] <= 1 && s[xr + 2][63] <= 1 && s[xr + 3][63] <= 1
        && s[xr + 4][63] <= 1);
    if i < 64 {
        assert(s[k][i] <= 1);
        assert(s[xl][i] <= 1 && s[xl + 1][i] <= 1 && s[xl + 2][i] <= 1 && s[xl + 3][i] <= 1
            && s[xl + 4][i] <= 1);
    }
    if i >= 1 {
        assert(s[xr][i - 1] <= 1 && s[xr + 1][i - 1] <= 1 && s[xr + 2][i - 1] <= 1 && s[xr + 3][i
            - 1] <= 1 && s[xr + 4][i - 1] <= 1);
    }
}

/// Theta then Rho on the digits of a state give the digits of the bitwise
/// Theta then Rho.
proof fn lemma_rho_theta(a: Seq<u64>)
    requires
        a.len() == 25,
    ensures
        rho_state_spec(theta_state_spec(state_digits(a))) == state_digits(rho_spec(theta_spec(a))),
{
    let s = state_digits(a);
    let t = theta_state_spec(s);
    let lhs = rho_state_spec(t);
    let rhs = state_digits(rho_spec(theta_spec(a)));
    lemma_state_digits_wf(a);
    lemma_theta_correct(a);
    assert forall|k: int| 0 <= k < 25 implies #[trigger] lhs[k] =~= rhs[k] by {
        let r = rotation_offset(k);
        let th = theta_spec(a)[k];
        assert(r < 64);
        assert forall|j: int| 0 <= j < 64 implies #[trigger] lhs[k][j] == rhs[k][j] by {
            lemma_bit_rotl(th, r, j);
            let src = (j + 64 - r) % 64;
            lemma_theta_digit_bound(s, k, src);
            lemma_theta_digit_bound(s, k, 0);
            lemma_theta_digit_bound(s, k, 64);
            assert(rhs[k][j] == bit(rotl(th, r), j));
            assert(rho_spec(theta_spec(a))[k] == rotl(th, r));
            if j == r as int {
                assert(src == 0);
                assert(t[k][0] == theta_digit(s, k, 0) as u8);
                assert(t[k][64] == theta_digit(s, k, 64) as u8);
            } else {
                assert(1 <= src < 64);
                assert(t[k][src] == theta_digit(s, k, src) as u8);
            }
        }
    }
    assert(lhs =~= rhs);
}

/// A base-9 Xi digit of a state of bits, with or without a further `2`
/// added, reduces to the Chi bit or its complement.
proof fn lemma_xi_digit_bits(b: Seq<u64>, k: int, j: int)
    requires
        b.len() == 25,
        0 <= k < 25,
        0 <= j < 64,
    ensures
        0 <= xi_digit(state_digits(b), k, j) <= 6,
        b9_bit(xi_digit(state_digits(b), k, j)) == bit(chi_spec(b)[k], j),
        b9_bit(xi_digit(state_digits(b), k, j) + 2) == 1 - bit(chi_spec(b)[k], j),
        bit(chi_spec(b)[k], j) <= 1,
{
    let p = state_digits(b);
    let kb = 5 * ((k / 5 + 1) % 5) + k % 5;
    let kc = 5 * ((k / 5 + 2) % 5) + k % 5;
    let (ba, bb, bc) = (bit(b[k], j), bit(b[kb], j), bit(b[kc], j));
    lemma_bit_xor(b[k], b[k], j);
    lemma_bit_xor(b[kb], b[kb], j);
    lemma_bit_xor(b[kc], b[kc], j);
    assert(p[k][j] == ba && p[kb][j] == bb && p[kc][j] == bc);
    let c = chi_spec(b)[k];
    crate::encoding::lemma_bit_not_and(b[kb], b[kc], j);
    lemma_bit_xor(b[k], !b[kb] & b[kc], j);
    lemma_bit_xor(c, c, j);
    assert(c == b[k] ^ (!b[kb] & b[kc]));
    lemma_b9_digit(ba as int, bb as int, bc as int, 0);
    lemma_b9_digit(ba as int, bb as int, bc as int, 1);
}

/// One of the first 23 rounds, converted back to base 13, gives the digits
/// of the bitwise round.
proof fn lemma_round_correct(a: Seq<u64>, i: int)
    requires
        a.len() == 25,
        0 <= i < 24,
    ensures
        conv_state_spec(round_b9_spec(state_digits(a), i)) == state_digits(round_spec(a, i)),
{
    let b = pi_spec(rho_spec(theta_spec(a)));
    lemma_rho_theta(a);
    let p = pi_state_spec(rho_state_spec(theta_state_spec(state_digits(a))));
    assert(p =~= state_digits(b));
    lemma_state_digits_wf(b);
    lemma_xi_correct(b);
    let rc = round_constant_spec(i);
    let x = xi_state_spec(p);
    let lhs = conv_state_spec(add_word_digits(x, 0, rc, 2));
    let rhs = state_digits(round_spec(a, i));
    assert forall|k: int| 0 <= k < 25 implies #[trigger] lhs[k] =~= rhs[k] by {
        assert forall|j: int| 0 <= j < 64 implies #[trigger] lhs[k][j] == rhs[k][j] by {
            lemma_xi_digit_bits(b, k, j);
            lemma_bit_xor(rc, rc, j);
            assert(x[k][j] == xi_digit(p, k, j) as u8);
            let c = chi_spec(b)[k];
            if k == 0 {
                lemma_bit_xor(c, rc, j);
                assert(round_spec(a, i)[0] == c ^ rc);
            } else {
                assert(round_spec(a, i)[k] == c);
            }
        }
    }
    assert(lhs =~= rhs);
}

/// The first `n` arithmetized rounds give the digits of the first `n`
/// bitwise rounds.
proof fn lemma_rounds_correct(a: Seq<u64>, n: nat)
    requires
        a.len() == 25,
        n <= 24,
    ensures
        rounds_arith_spec(state_digits(a), n) == state_digits(rounds_spec(a, n)),
        rounds_spec(a, n).len() == 25,
    decreases n,
{
    if n > 0 {
        lemma_rounds_correct(a, (n - 1) as nat);
        lemma_round_correct(rounds_spec(a, (n - 1) as nat), n - 1);
    }
}

/// The whole arithmetized permutation without absorption computes
/// Keccak-f[1600]: each base-9 digit of its output reduces to the bit of
/// the bitwise permutation.
pub proof fn lemma_permute_correct(a: Seq<u64>, next: Seq<u64>)
    requires
        a.len() == 25,
    ensures
        conv_state_spec(permute_spec(state_digits(a), false, next)) == state_digits(
            keccak_f_spec(a),
        ),
{
    lemma_rounds_correct(a, 23);
    let s23 = rounds_spec(a, 23);
    lemma_round_correct(s23, 23);
    assert(permute_spec(state_digits(a), false, next) == round_b9_spec(state_digits(s23), 23));
}

/// The words of `a` with the block `next` XORed into its first 17 lanes.
pub open spec fn absorb_words(a: Seq<u64>, next: Seq<u64>) -> Seq<u64> {
    Seq::new(25, |k: int| if k < 17 { a[k] ^ next[k] } else { a[k] })
}

/// Each digit of a state reduced to its parity.
pub open spec fn parity_state_spec(s: Seq<Seq<u8>>) -> Seq<Seq<u8>> {
    Seq::new(25, |k: int| Seq::new(64, |i: int| s[k][i] % 2))
}

/// Digit `j` of lane `k` after the absorbing branch on the Xi output of a
/// state of bits reduces to the bit of Chi, Iota and the absorbed block.
proof fn lemma_mix_digit(b: Seq<u64>, next: Seq<u64>, rc: u64, k: int, j: int)
    requires
        b.len() == 25,
        next.len() == 17,
        0 <= k < 25,
        0 <= j < 64,
    ensures
        parity_state_spec(
            add_word_digits(
                conv_state_spec(absorb_digits(xi_state_spec(state_digits(b)), next)),
                0,
                rc,
                1,
            ),
        )[k][j] == state_digits(absorb_words(crate::keccak::iota_spec(chi_spec(b), rc), next))[k][j],
{
    let p = state_digits(b);
    let x = xi_state_spec(p);
    let ab = absorb_digits(x, next);
    let cv = conv_state_spec(ab);
    let w = crate::keccak::iota_spec(chi_spec(b), rc);
    let out = absorb_words(w, next);
    lemma_xi_digit_bits(b, k, j);
    lemma_bit_xor(rc, rc, j);
    assert(x[k][j] == xi_digit(p, k, j) as u8);
    let c = chi_spec(b)[k];
    if k < 17 {
        lemma_bit_xor(next[k], next[k], j);
        lemma_bit_xor(c, next[k], j);
        lemma_bit_xor(w[k], next[k], j);
        assert(out[k] == w[k] ^ next[k]);
        assert(ab[k][j] == (x[k][j] + 2 * bit(next[k], j)) as u8);
    } else {
        assert(out[k] == w[k]);
        assert(ab[k][j] == x[k][j]);
    }
    assert(cv[k][j] == b9_bit(ab[k][j] as int));
    if k == 0 {
        lemma_bit_xor(c, rc, j);
        lemma_bit_xor(c ^ next[k], rc, j);
        assert(w[k] == c ^ rc);
        let n0 = next[0];
        assert((c ^ rc) ^ n0 == (c ^ n0) ^ rc) by (bit_vector);
    } else {
        assert(w[k] == c);
    }
}

/// The absorbing branch of Mixing on the Xi output of a state of bits gives
/// the digits of Chi, Iota, and the XOR of the block.
proof fn lemma_mix_correct(b: Seq<u64>, next: Seq<u64>, rc: u64)
    requires
        b.len() == 25,
        next.len() == 17,
    ensures
        parity_state_spec(
            add_word_digits(
                conv_state_spec(absorb_digits(xi_state_spec(state_digits(b)), next)),
                0,
                rc,
                1,
            ),
        ) == state_digits(absorb_words(crate::keccak::iota_spec(chi_spec(b), rc), next)),
{
    let lhs = parity_state_spec(
        add_word_digits(conv_state_spec(absorb_digits(xi_state_spec(state_digits(b)), next)), 0, rc, 1),
    );
    let rhs = state_digits(absorb_words(crate::keccak::iota_spec(chi_spec(b), rc), next));
    assert forall|k: int| 0 <= k < 25 implies #[trigger] lhs[k] =~= rhs[k] by {
        assert forall|j: int| 0 <= j < 64 implies #[trigger] lhs[k][j] == rhs[k][j] by {
            lemma_mix_digit(b, next, rc, k, j);
        }
    }
    assert(lhs =~= rhs);
}

/// The whole arithmetized permutation with absorption computes Keccak-f
/// followed by the XOR of the block into the first 17 lanes: each base-13
/// digit of its output reduces by parity to that bit.
pub proof fn lemma_permute_absorb_correct(a: Seq<u64>, next: Seq<u64>)
    requires
        a.len() == 25,
        next.len() == 17,
    ensures
        parity_state_spec(permute_spec(state_digits(a), true, next)) == state_digits(
            absorb_words(keccak_f_spec(a), next),
        ),
{
    lemma_rounds_correct(a, 23);
    let s23 = rounds_spec(a, 23);
    let b = pi_spec(rho_spec(theta_spec(s23)));
    lemma_rho_theta(s23);
    let p = pi_state_spec(rho_state_spec(theta_state_spec(state_digits(s23))));
    assert(p =~= state_digits(b));
    lemma_mix_correct(b, next, round_constant_spec(23));
    assert(keccak_f_spec(a) == round_spec(s23, 23));
}

} // verus!
