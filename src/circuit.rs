//! The whole permutation on digit-encoded states: 23 rounds of Theta, Rho,
//! Pi, Xi and Iota (each ending with the conversion back to base 13), then
//! the last round with Mixing, and the check of the claimed output.
use vstd::prelude::*;
use crate::arith::{
    add_word_digits, b9_bit, conv_state_spec, convert_b9_coef, convert_b9_state_to_b13,
    iota_b9, lanes_view, state_digits, state_wf, theta_arith, theta_state_spec, xi_arith,
    xi_state_spec,
};
use crate::common::{round_constant, round_constant_spec, rotation_offset, PERMUTATION};
use crate::encoding::{bits_to_digits, digits_to_bits, digits_value, lane_digits};
use crate::keccak::pi_source;
use crate::mixing::{mixing_spec, next_or_zero, MixingConfig};
use crate::pi::{pi_state_spec, PiConfig};
use crate::rho_checks::{
    block_counts_accepted, lemma_state_chunks_accepted, rho_lane_spec, rho_state_spec, state_chunks_spec,
    BlockCountFinalConfig, RhoConfig,
};

verus! {

/// Why a permutation circuit is not satisfied.
#[derive(Debug, Clone, Copy, PartialEq, Eq, Structural)]
pub enum Error {
    /// The claimed output state is not the result of the permutation.
    OutStateMismatch,
    /// A state is not 25 lanes of 64 digits within the expected range.
    MalformedState,
    /// The block to absorb does not hold 17 lanes.
    NextInputLength,
}

/// Theta, Rho, Pi and Xi on a state of binary base-13 digits.
pub open spec fn to_xi_spec(s: Seq<Seq<u8>>) -> Seq<Seq<u8>> {
    xi_state_spec(pi_state_spec(rho_state_spec(theta_state_spec(s))))
}

/// One of the first 23 rounds, ending in base 9 after Iota.
pub open spec fn round_b9_spec(s: Seq<Seq<u8>>, i: int) -> Seq<Seq<u8>> {
    add_word_digits(to_xi_spec(s), 0, round_constant_spec(i), 2)
}

/// The first `n` rounds, each converted back to base 13.
pub open spec fn rounds_arith_spec(s: Seq<Seq<u8>>, n: nat) -> Seq<Seq<u8>>
    decreases n,
{
    if n == 0 {
        s
    } else {
        conv_state_spec(round_b9_spec(rounds_arith_spec(s, (n - 1) as nat), n - 1))
    }
}

/// The whole arithmetized permutation, with Mixing in the last round.
pub open spec fn permute_spec(s: Seq<Seq<u8>>, flag: bool, next: Seq<u64>) -> Seq<Seq<u8>> {
    mixing_spec(to_xi_spec(rounds_arith_spec(s, 23)), flag, next)
}

/// Theta, Rho, Pi and Xi on a state of binary base-13 digits.
pub fn assign_to_xi(s: &Vec<Vec<u8>>) -> (r: Vec<Vec<u8>>)
    requires
        state_wf(lanes_view(s), 64, 1),
    ensures
        lanes_view(&r) == to_xi_spec(lanes_view(s)),
        state_wf(lanes_view(&r), 64, 6),
{
    let ghost sv = lanes_view(s);
    let t = theta_arith(s);
    let ghost tv = lanes_view(&t);
    proof {
        assert forall|k: int| 0 <= k < 25 implies (#[trigger] t@[k]@).len() == 65 && crate::encoding::digits_in_range(
            t@[k]@,
            13,
        ) && t@[k]@[0] + t@[k]@[64] < 13 by {
            assert(t@[k]@ == tv[k]);
            assert forall|i: int| 0 <= i < 65 implies #[trigger] t@[k]@[i] < 13 by {
                assert(tv[k][i] <= 11);
            }
            assert(sv[k][0] <= 1);
            assert(sv[5 * ((k / 5 + 4) % 5)][0] <= 1);
            assert(sv[5 * ((k / 5 + 4) % 5) + 1][0] <= 1);
            assert(sv[5 * ((k / 5 + 4) % 5) + 2][0] <= 1);
            assert(sv[5 * ((k / 5 + 4) % 5) + 3][0] <= 1);
            assert(sv[5 * ((k / 5 + 4) % 5) + 4][0] <= 1);
            assert(sv[5 * ((k / 5 + 1) % 5)][63] <= 1);
            assert(sv[5 * ((k / 5 + 1) % 5) + 1][63] <= 1);
            assert(sv[5 * ((k / 5 + 1) % 5) + 2][63] <= 1);
            assert(sv[5 * ((k / 5 + 1) % 5) + 3][63] <= 1);
            assert(sv[5 * ((k / 5 + 1) % 5) + 4][63] <= 1);
        }
    }
    let (rho_out, _chunks) = RhoConfig::assign_rotation_checks(&t);
    let ghost rv = lanes_view(&rho_out);
    proof {
        assert(rv =~= rho_state_spec(tv)) by {
            assert forall|k: int| 0 <= k < 25 implies #[trigger] rv[k] == rho_state_spec(tv)[k] by {
                assert(rho_out@[k]@ == rv[k]);
                assert(t@[k]@ == tv[k]);
            }
        }
        assert(state_wf(rv, 64, 1)) by {
            assert forall|k: int, i: int| 0 <= k < 25 && 0 <= i < 64 implies #[trigger] rv[k][i]
                <= 1 by {
                assert(rv[k] == rho_lane_spec(tv[k], rotation_offset(k) as int));
            }
        }
    }
    let p = PiConfig::assign_region(&rho_out);
    let ghost pv = lanes_view(&p);
    proof {
        assert(pv =~= pi_state_spec(rv)) by {
            assert forall|k: int| 0 <= k < 25 implies #[trigger] pv[k] == pi_state_spec(rv)[k] by {
                assert(p@[k]@ == rho_out@[pi_source(k)]@);
            }
        }
        assert(state_wf(pv, 64, 1)) by {
            assert forall|k: int, i: int| 0 <= k < 25 && 0 <= i < 64 implies #[trigger] pv[k][i]
                <= 1 by {
                assert(pv[k] == rv[pi_source(k)]);
                assert(0 <= pi_source(k) < 25);
            }
            assert forall|k: int| 0 <= k < 25 implies (#[trigger] pv[k]).len() == 64 by {
                assert(pv[k] == rv[pi_source(k)]);
            }
        }
    }
    xi_arith(&p)
}

/// Whether two digit states are equal, lane by lane and digit by digit.
pub fn states_equal(a: &Vec<Vec<u8>>, b: &Vec<Vec<u8>>) -> (r: bool)
    ensures
        r == (lanes_view(a) == lanes_view(b)),
{
    if a.len() != b.len() {
        proof {
            assert(lanes_view(a).len() != lanes_view(b).len());
        }
        return false;
    }
    let mut k: usize = 0;
    while k < a.len()
        invariant
            k <= a@.len(),
            a@.len() == b@.len(),
            forall|q: int| 0 <= q < k ==> #[trigger] a@[q]@ == b@[q]@,
        decreases a@.len() - k,
    {
        if a[k].len() != b[k].len() {
            proof {
                assert(lanes_view(a)[k as int] != lanes_view(b)[k as int]);
            }
            return false;
        }
        let mut i: usize = 0;
        while i < a[k].len()
            invariant
                k < a@.len(),
                a@.len() == b@.len(),
                a@[k as int]@.len() == b@[k as int]@.len(),
                i <= a@[k as int]@.len(),
                forall|j: int| 0 <= j < i ==> #[trigger] a@[k as int]@[j] == b@[k as int]@[j],
            decreases a@[k as int]@.len() - i,
        {
            if a[k][i] != b[k][i] {
                proof {
                    assert(lanes_view(a)[k as int][i as int] != lanes_view(b)[k as int][i as int]);
                }
                return false;
            }
            i = i + 1;
        }
        proof {
            assert(a@[k as int]@ =~= b@[k as int]@);
        }
        k = k + 1;
    }
    proof {
        assert(lanes_view(a) =~= lanes_view(b));
    }
    true
}

/// Whether `s` is 25 lanes of 64 digits, none above `max`.
pub fn state_is_wf(s: &Vec<Vec<u8>>, max: u8) -> (r: bool)
    ensures
        r == state_wf(lanes_view(s), 64, max as nat),
{
    if s.len() != 25 {
        return false;
    }
    let mut k: usize = 0;
    while k < 25
        invariant
            k <= 25,
            s@.len() == 25,
            forall|q: int| 0 <= q < k ==> (#[trigger] s@[q]@).len() == 64,
            forall|q: int, i: int| 0 <= q < k && 0 <= i < 64 ==> #[trigger] s@[q]@[i] <= max,
        decreases 25 - k,
    {
        if s[k].len() != 64 {
            proof {
                assert(lanes_view(s)[k as int].len() != 64);
            }
            return false;
        }
        let mut i: usize = 0;
        while i < 64
            invariant
                k < 25,
                s@.len() == 25,
                s@[k as int]@.len() == 64,
                i <= 64,
                forall|j: int| 0 <= j < i ==> #[trigger] s@[k as int]@[j] <= max,
            decreases 64 - i,
        {
            if s[k][i] > max {
                proof {
                    assert(lanes_view(s)[k as int][i as int] > max);
                }
                return false;
            }
            i = i + 1;
        }
        k = k + 1;
    }
    proof {
        let v = lanes_view(s);
        assert forall|q: int, i: int| 0 <= q < 25 && 0 <= i < 64 implies #[trigger] v[q][i]
            <= max by {
            assert(v[q] == s@[q]@);
        }
        assert forall|q: int| 0 <= q < 25 implies (#[trigger] v[q]).len() == 64 by {
            assert(v[q] == s@[q]@);
        }
    }
    true
}

/// Writes each word of a state as a lane of binary digits.
pub fn encode_state(a: &Vec<u64>) -> (r: Vec<Vec<u8>>)
    requires
        a@.len() == 25,
    ensures
        lanes_view(&r) == state_digits(a@),
        state_wf(lanes_view(&r), 64, 1),
{
    let mut r: Vec<Vec<u8>> = Vec::new();
    let mut k: usize = 0;
    while k < 25
        invariant
            k <= 25,
            a@.len() == 25,
            r@.len() == k,
            forall|q: int| 0 <= q < k ==> #[trigger] r@[q]@ == lane_digits(a@[q]),
        decreases 25 - k,
    {
        r.push(bits_to_digits(a[k]));
        k = k + 1;
    }
    proof {
        assert(lanes_view(&r) =~= state_digits(a@));
        let v = lanes_view(&r);
        assert forall|q: int, i: int| 0 <= q < 25 && 0 <= i < 64 implies #[trigger] v[q][i]
            <= 1 by {
            let w = a@[q];
            let j = i as u64;
            assert(v[q][i] == crate::encoding::bit(w, i));
            assert(((w >> j) & 1u64) <= 1) by (bit_vector);
        }
    }
    r
}

/// Reads a state of digits back into words; with `base9`, each digit is a
/// base-9 digit reduced by its table, otherwise a base-13 digit reduced to
/// its parity.
pub fn decode_state(s: &Vec<Vec<u8>>, base9: bool) -> (r: Vec<u64>)
    requires
        state_wf(lanes_view(s), 64, 8),
    ensures
        r@.len() == 25,
        forall|k: int|
            0 <= k < 25 ==> #[trigger] r@[k] == digits_value(
                Seq::new(
                    64,
                    |i: int|
                        if base9 {
                            b9_bit(lanes_view(s)[k][i] as int)
                        } else {
                            lanes_view(s)[k][i] % 2
                        },
                ),
                2,
            ),
{
    let ghost sv = lanes_view(s);
    let mut r: Vec<u64> = Vec::new();
    let mut k: usize = 0;
    while k < 25
        invariant
            k <= 25,
            sv == lanes_view(s),
            state_wf(sv, 64, 8),
            r@.len() == k,
            forall|q: int|
                0 <= q < k ==> #[trigger] r@[q] == digits_value(
                    Seq::new(
                        64,
                        |i: int|
                            if base9 {
                                b9_bit(sv[q][i] as int)
                            } else {
                                sv[q][i] % 2
                            },
                    ),
                    2,
                ),
        decreases 25 - k,
    {
        let mut bits: Vec<u8> = Vec::new();
        let mut i: usize = 0;
        assert(s@[k as int]@ == sv[k as int]);
        while i < 64
            invariant
                k < 25,
                i <= 64,
                sv == lanes_view(s),
                state_wf(sv, 64, 8),
                s@[k as int]@ == sv[k as int],
                bits@.len() == i,
                forall|j: int|
                    0 <= j < i ==> #[trigger] bits@[j] == (if base9 {
                        b9_bit(sv[k as int][j] as int)
                    } else {
                        sv[k as int][j] % 2
                    }),
            decreases 64 - i,
        {
            assert(sv[k as int][i as int] <= 8);
            let b = if base9 {
                convert_b9_coef(s[k][i])
            } else {
                s[k][i] % 2
            };
            bits.push(b);
            i = i + 1;
        }
        let ghost target = Seq::new(
            64,
            |i: int|
                if base9 {
                    b9_bit(sv[k as int][i] as int)
                } else {
                    sv[k as int][i] % 2
                },
        );
        proof {
            assert(bits@ =~= target);
        }
        r.push(digits_to_bits(&bits));
        k = k + 1;
    }
    r
}

/// The Keccak-f permutation circuit.
pub struct KeccakFConfig;

impl KeccakFConfig {
    /// Runs the permutation on `in_state` (binary digits in base 13) with
    /// Mixing driven by `flag` and the block `next_mixing`, and checks the
    /// result against the claimed `out_state`.
    pub fn assign_all(
        in_state: &Vec<Vec<u8>>,
        out_state: &Vec<Vec<u8>>,
        flag: bool,
        next_mixing: &Option<Vec<u64>>,
    ) -> (r: Result<Vec<Vec<u8>>, Error>)
        requires
            state_wf(lanes_view(in_state), 64, 1),
            next_or_zero(*next_mixing).len() == 17,
        ensures
            match r {
                Ok(v) => lanes_view(&v) == permute_spec(
                    lanes_view(in_state),
                    flag,
                    next_or_zero(*next_mixing),
                ) && lanes_view(out_state) == lanes_view(&v),
                Err(e) => e == Error::OutStateMismatch && lanes_view(out_state) != permute_spec(
                    lanes_view(in_state),
                    flag,
                    next_or_zero(*next_mixing),
                ),
            },
    {
        let mixed = Self::permute(in_state, flag, next_mixing);
        if Self::constrain_out_state(&mixed, out_state) {
            Ok(mixed)
        } else {
            Err(Error::OutStateMismatch)
        }
    }

    /// Ties the result of Mixing to the claimed output state.
    pub fn constrain_out_state(out_mixing: &Vec<Vec<u8>>, out_state: &Vec<Vec<u8>>) -> (r: bool)
        ensures
            r == (lanes_view(out_mixing) == lanes_view(out_state)),
    {
        states_equal(out_mixing, out_state)
    }

    /// The arithmetized permutation: 23 rounds, then the last round with
    /// Mixing driven by `flag` and the block `next_mixing`.
    pub fn permute(in_state: &Vec<Vec<u8>>, flag: bool, next_mixing: &Option<Vec<u64>>) -> (r: Vec<
        Vec<u8>,
    >)
        requires
            state_wf(lanes_view(in_state), 64, 1),
            next_or_zero(*next_mixing).len() == 17,
        ensures
            lanes_view(&r) == permute_spec(lanes_view(in_state), flag, next_or_zero(*next_mixing)),
            state_wf(lanes_view(&r), 64, 8),
    {
        let ghost s0 = lanes_view(in_state);
        let mut state = crate::arith::copy_state(in_state);
        let mut round: usize = 0;
        while round < PERMUTATION - 1
            invariant
                round <= 23,
                s0 == lanes_view(in_state),
                lanes_view(&state) == rounds_arith_spec(s0, round as nat),
                state_wf(lanes_view(&state), 64, 1),
            decreases 23 - round,
        {
            let mut t = assign_to_xi(&state);
            iota_b9(&mut t, round_constant(round));
            state = convert_b9_state_to_b13(&t);
            round = round + 1;
        }
        let t = assign_to_xi(&state);
        MixingConfig::assign_state(&t, flag, next_mixing)
    }

    /// Runs Rho's chunk witnesses of a 65-digit Theta output through the
    /// block-count gates; honest witnesses always pass.
    pub fn check_rho_block_counts(theta_out: &Vec<Vec<u8>>) -> (r: bool)
        requires
            theta_out@.len() == 25,
            forall|k: int| 0 <= k < 25 ==> (#[trigger] theta_out@[k]@).len() == 65,
            forall|k: int|
                0 <= k < 25 ==> crate::encoding::digits_in_range(#[trigger] theta_out@[k]@, 13),
            forall|k: int| 0 <= k < 25 ==> (#[trigger] theta_out@[k]@)[0] + theta_out@[k]@[64] < 13,
        ensures
            r == block_counts_accepted(state_chunks_spec(lanes_view(theta_out), 25)),
            r,
    {
        let (_out, chunks) = RhoConfig::assign_rotation_checks(theta_out);
        proof {
            lemma_state_chunks_accepted(lanes_view(theta_out));
        }
        BlockCountFinalConfig::check_chunks(&chunks)
    }
}

/// One instance of the permutation circuit: the input state in base 13,
/// the claimed output, the block to absorb, and the mixing flag.
pub struct TestCircuit {
    pub in_state: Vec<Vec<u8>>,
    pub out_state: Vec<Vec<u8>>,
    pub next_mixing: Option<Vec<u64>>,
    pub is_mixing: bool,
}

impl TestCircuit {
    /// The circuit with every witness zero: all-zero states, no block, and
    /// the flag off.
    pub fn without_witnesses() -> (r: Self)
        ensures
            lanes_view(&r.in_state) == Seq::new(25, |k: int| Seq::new(64, |i: int| 0u8)),
            lanes_view(&r.out_state) == Seq::new(25, |k: int| Seq::new(64, |i: int| 0u8)),
            r.next_mixing.is_none(),
            !r.is_mixing,
    {
        let mut in_state: Vec<Vec<u8>> = Vec::new();
        let mut out_state: Vec<Vec<u8>> = Vec::new();
        let mut k: usize = 0;
        while k < 25
            invariant
                k <= 25,
                in_state@.len() == k,
                out_state@.len() == k,
                forall|q: int| 0 <= q < k ==> #[trigger] in_state@[q]@ == Seq::new(64, |i: int| 0u8),
                forall|q: int| 0 <= q < k ==> #[trigger] out_state@[q]@ == Seq::new(64, |i: int| 0u8),
            decreases 25 - k,
        {
            let mut lane: Vec<u8> = Vec::new();
            let mut i: usize = 0;
            while i < 64
                invariant
                    i <= 64,
                    lane@.len() == i,
                    forall|j: int| 0 <= j < i ==> #[trigger] lane@[j] == 0u8,
                decreases 64 - i,
            {
                lane.push(0);
                i = i + 1;
            }
            proof {
                assert(lane@ =~= Seq::new(64, |i: int| 0u8));
            }
            in_state.push(lane.clone());
            out_state.push(lane);
            k = k + 1;
        }
        proof {
            assert(lanes_view(&in_state) =~= Seq::new(25, |k: int| Seq::new(64, |i: int| 0u8)));
            assert(lanes_view(&out_state) =~= Seq::new(25, |k: int| Seq::new(64, |i: int| 0u8)));
        }
        TestCircuit { in_state, out_state, next_mixing: None, is_mixing: false }
    }

    /// Checks the witnesses' shape, then runs the permutation circuit on them.
    pub fn synthesize(&self) -> (r: Result<Vec<Vec<u8>>, Error>)
        ensures
            !state_wf(lanes_view(&self.in_state), 64, 1) ==> r == Err::<Vec<Vec<u8>>, Error>(
                Error::MalformedState,
            ),
            state_wf(lanes_view(&self.in_state), 64, 1) && next_or_zero(self.next_mixing).len()
                != 17 ==> r == Err::<Vec<Vec<u8>>, Error>(Error::NextInputLength),
            state_wf(lanes_view(&self.in_state), 64, 1) && next_or_zero(self.next_mixing).len()
                == 17 ==> match r {
                Ok(v) => lanes_view(&v) == permute_spec(
                    lanes_view(&self.in_state),
                    self.is_mixing,
                    next_or_zero(self.next_mixing),
                ) && lanes_view(&self.out_state) == lanes_view(&v),
                Err(e) => e == Error::OutStateMismatch && lanes_view(&self.out_state)
                    != permute_spec(
                    lanes_view(&self.in_state),
                    self.is_mixing,
                    next_or_zero(self.next_mixing),
                ),
            },
    {
        if !state_is_wf(&self.in_state, 1) {
            return Err(Error::MalformedState);
        }
        let next_ok = match &self.next_mixing {
            Some(v) => v.len() == 17,
            None => true,
        };
        if !next_ok {
            return Err(Error::NextInputLength);
        }
        KeccakFConfig::assign_all(&self.in_state, &self.out_state, self.is_mixing, &self.next_mixing)
    }
}

} // verus!
