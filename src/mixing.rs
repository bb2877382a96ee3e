//! The last round's Mixing step: both branches are computed, "finalize"
//! (Iota in base 9) and "absorb the next block" (Absorb, conversion to
//! base 13, Iota in base 13), and a flag with its witnessed negation picks
//! one of them.
use vstd::prelude::*;
use crate::arith::{
    absorb, absorb_digits, add_word_digits, conv_state_spec, convert_b9_state_to_b13, copy_state,
    iota_b13,
    iota_b9, lanes_view, state_wf,
};
use crate::common::{round_constant, round_constant_spec, ABSORB_NEXT_INPUTS};
use crate::encoding::{bit, bits_to_digits, lane_digits};

verus! {

/// The flag gates: `flag + negated == 1`, and both are Boolean
/// (`(1 - f) * f == 0`), each identity enforced on its own.
pub open spec fn flag_constraints_hold(f: int, n: int) -> bool {
    &&& f + n - 1 == 0
    &&& (1 - f) * f == 0
    &&& (1 - n) * n == 0
}

/// The selection gate on one digit: `out == non_mix * negated + mix * flag`.
pub open spec fn mixing_out_holds(f: int, n: int, non_mix: int, mix: int, out: int) -> bool {
    non_mix * n + mix * f == out
}

/// The flag gates hold exactly on the two consistent Boolean pairs.
pub proof fn lemma_flag_consistency(f: int, n: int)
    ensures
        flag_constraints_hold(f, n) <==> ((f == 0 && n == 1) || (f == 1 && n == 0)),
{
    if (1 - f) * f == 0 {
        vstd::arithmetic::mul::lemma_mul_nonzero(1 - f, f);
    }
    if (1 - n) * n == 0 {
        vstd::arithmetic::mul::lemma_mul_nonzero(1 - n, n);
    }
    assert((1 - 0) * 0 == 0 && (1 - 1) * 1 == 0);
}

/// With consistent flags, the selection gate holds exactly when the output
/// is the branch that the flag picks: the mixing one for `flag == 1`, the
/// non-mixing one for `flag == 0`.
pub proof fn lemma_mixing_selection(f: int, n: int, non_mix: int, mix: int, out: int)
    requires
        flag_constraints_hold(f, n),
    ensures
        mixing_out_holds(f, n, non_mix, mix, out) <==> out == (if f == 1 {
            mix
        } else {
            non_mix
        }),
{
    lemma_flag_consistency(f, n);
    if f == 1 {
        assert(non_mix * 0 + mix * 1 == mix);
    } else {
        assert(non_mix * 1 + mix * 0 == non_mix);
    }
}

/// The result of Mixing on the state after Xi of the last round.
pub open spec fn mixing_spec(s: Seq<Seq<u8>>, flag: bool, next: Seq<u64>) -> Seq<Seq<u8>> {
    if flag {
        add_word_digits(conv_state_spec(absorb_digits(s, next)), 0, round_constant_spec(23), 1)
    } else {
        add_word_digits(s, 0, round_constant_spec(23), 2)
    }
}

/// The absorbed block, or 17 zero words when there is none.
pub open spec fn next_or_zero(next: Option<Vec<u64>>) -> Seq<u64> {
    match next {
        Some(v) => v@,
        None => Seq::new(17, |i: int| 0u64),
    }
}

/// What absorbing adds to digit `i` of lane `k`: twice the bit of the
/// block on the first 17 lanes, nothing on the others.
pub open spec fn absorbed_addend(next: Seq<u64>, k: int, i: int) -> int {
    if k < 17 {
        2 * bit(next[k], i)
    } else {
        0
    }
}

pub struct AbsorbConfig;

impl AbsorbConfig {
    /// The block to absorb as lanes of digits, one per bit, as added in base 9.
    pub fn assign_next_inp_and_flag(next_input: &Vec<u64>) -> (r: Vec<Vec<u8>>)
        requires
            next_input@.len() == 17,
        ensures
            r@.len() == 17,
            forall|k: int| 0 <= k < 17 ==> #[trigger] r@[k]@ == lane_digits(next_input@[k]),
    {
        let mut r: Vec<Vec<u8>> = Vec::new();
        let mut k: usize = 0;
        while k < ABSORB_NEXT_INPUTS
            invariant
                k <= 17,
                next_input@.len() == 17,
                r@.len() == k,
                forall|q: int| 0 <= q < k ==> #[trigger] r@[q]@ == lane_digits(next_input@[q]),
            decreases 17 - k,
        {
            r.push(bits_to_digits(next_input[k]));
            k = k + 1;
        }
        r
    }

    /// The absorbed state: `in + 2 * next_input` on the first 17 lanes.
    pub fn copy_state_flag_next_inputs(in_state: &Vec<Vec<u8>>, next_input: &Vec<u64>) -> (r: Vec<
        Vec<u8>,
    >)
        requires
            state_wf(lanes_view(in_state), 64, 6),
            next_input@.len() == 17,
        ensures
            lanes_view(&r) == absorb_digits(lanes_view(in_state), next_input@),
            state_wf(lanes_view(&r), 64, 8),
    {
        let mut out = copy_state(in_state);
        absorb(&mut out, next_input);
        out
    }

    /// The absorb gate, enabled by the flag: digit by digit,
    /// `flag * (in + 2 * next - out) == 0` on the first 17 lanes and
    /// `flag * (in - out) == 0` on the other 8, which pass through unchanged.
    pub fn check_gate(flag: u8, in_state: &Vec<Vec<u8>>, next: &Vec<u64>, out_state: &Vec<
        Vec<u8>,
    >) -> (r: bool)
        requires
            state_wf(lanes_view(in_state), 64, 255),
            state_wf(lanes_view(out_state), 64, 255),
            next@.len() == 17,
        ensures
            r == (forall|k: int, i: int|
                0 <= k < 25 && 0 <= i < 64 ==> #[trigger] (flag * (lanes_view(in_state)[k][i]
                    + absorbed_addend(next@, k, i) - lanes_view(out_state)[k][i])) == 0),
    {
        let ghost iv = lanes_view(in_state);
        let ghost ov = lanes_view(out_state);
        let mut k: usize = 0;
        while k < 25
            invariant
                k <= 25,
                iv == lanes_view(in_state),
                ov == lanes_view(out_state),
                state_wf(iv, 64, 255),
                state_wf(ov, 64, 255),
                next@.len() == 17,
                forall|q: int, i: int|
                    0 <= q < k && 0 <= i < 64 ==> #[trigger] (flag * (iv[q][i] + absorbed_addend(
                        next@,
                        q,
                        i,
                    ) - ov[q][i])) == 0,
            decreases 25 - k,
        {
            let mut i: usize = 0;
            while i < 64
                invariant
                    k < 25,
                    i <= 64,
                    iv == lanes_view(in_state),
                    ov == lanes_view(out_state),
                    state_wf(iv, 64, 255),
                    state_wf(ov, 64, 255),
                    next@.len() == 17,
                    forall|j: int|
                        0 <= j < i ==> #[trigger] (flag * (iv[k as int][j] + absorbed_addend(
                            next@,
                            k as int,
                            j,
                        ) - ov[k as int][j])) == 0,
                decreases 64 - i,
            {
                let b: u8 = if k < ABSORB_NEXT_INPUTS {
                    ((next[k] >> (i as u64)) & 1) as u8
                } else {
                    0
                };
                proof {
                    if k < 17 {
                        assert(b == bit(next@[k as int], i as int));
                        crate::encoding::lemma_bit_xor(next@[k as int], next@[k as int], i as int);
                    }
                    assert(2 * b == absorbed_addend(next@, k as int, i as int));
                    assert(in_state@[k as int]@ == iv[k as int]);
                    assert(out_state@[k as int]@ == ov[k as int]);
                }
                let lhs = in_state[k][i] as u64 + 2 * b as u64;
                let rhs = out_state[k][i] as u64;
                if flag != 0 && lhs != rhs {
                    proof {
                        let d = iv[k as int][i as int] + absorbed_addend(next@, k as int, i as int)
                            - ov[k as int][i as int];
                        assert(d != 0);
                        assert(flag * d != 0) by (nonlinear_arith)
                            requires
                                flag != 0,
                                d != 0,
                        ;
                    }
                    return false;
                }
                proof {
                    let d = iv[k as int][i as int] + absorbed_addend(next@, k as int, i as int)
                        - ov[k as int][i as int];
                    assert(flag * d == 0) by (nonlinear_arith)
                        requires
                            flag == 0 || d == 0,
                    ;
                }
                i = i + 1;
            }
            k = k + 1;
        }
        true
    }
}

pub struct MixingConfig;

impl MixingConfig {
    /// Witnesses the flag and its negation, which meet the flag gates.
    pub fn enforce_flag_consistency(flag_bool: bool) -> (r: (u8, u8))
        ensures
            r.0 == (if flag_bool { 1u8 } else { 0u8 }),
            r.1 == 1 - r.0,
            flag_constraints_hold(r.0 as int, r.1 as int),
    {
        proof {
            lemma_flag_consistency(flag_bool as int, 1 - flag_bool as int);
        }
        if flag_bool {
            (1, 0)
        } else {
            (0, 1)
        }
    }

    /// Evaluates the flag gates on a pair of witnessed values.
    pub fn check_flag_consistency(flag: u64, negated: u64) -> (r: bool)
        ensures
            r == flag_constraints_hold(flag as int, negated as int),
    {
        proof {
            lemma_flag_consistency(flag as int, negated as int);
        }
        (flag == 0 && negated == 1) || (flag == 1 && negated == 0)
    }

    /// Combines the two branches as the selection gate does:
    /// `non_mix * negated + mix * flag` on every digit.
    pub fn assign_out_mixing_states(flag: u8, negated: u8, mix: &Vec<Vec<u8>>, non_mix: &Vec<
        Vec<u8>,
    >) -> (r: Vec<Vec<u8>>)
        requires
            flag_constraints_hold(flag as int, negated as int),
            state_wf(lanes_view(mix), 64, 255),
            state_wf(lanes_view(non_mix), 64, 255),
        ensures
            lanes_view(&r) == (if flag == 1 {
                lanes_view(mix)
            } else {
                lanes_view(non_mix)
            }),
            forall|k: int, i: int|
                0 <= k < 25 && 0 <= i < 64 ==> mixing_out_holds(
                    flag as int,
                    negated as int,
                    lanes_view(non_mix)[k][i] as int,
                    lanes_view(mix)[k][i] as int,
                    #[trigger] lanes_view(&r)[k][i] as int,
                ),
    {
        proof {
            lemma_flag_consistency(flag as int, negated as int);
        }
        let r = if flag == 1 {
            copy_state(mix)
        } else {
            copy_state(non_mix)
        };
        proof {
            let rv = lanes_view(&r);
            assert forall|k: int, i: int| 0 <= k < 25 && 0 <= i < 64 implies mixing_out_holds(
                flag as int,
                negated as int,
                lanes_view(non_mix)[k][i] as int,
                lanes_view(mix)[k][i] as int,
                #[trigger] rv[k][i] as int,
            ) by {
                lemma_mixing_selection(
                    flag as int,
                    negated as int,
                    lanes_view(non_mix)[k][i] as int,
                    lanes_view(mix)[k][i] as int,
                    rv[k][i] as int,
                );
            }
        }
        r
    }

    /// Checks the selection gate on every digit of a claimed output.
    pub fn check_out_state(flag: u8, negated: u8, mix: &Vec<Vec<u8>>, non_mix: &Vec<Vec<u8>>, out: &Vec<
        Vec<u8>,
    >) -> (r: bool)
        requires
            state_wf(lanes_view(mix), 64, 255),
            state_wf(lanes_view(non_mix), 64, 255),
            state_wf(lanes_view(out), 64, 255),
        ensures
            r == (forall|k: int, i: int|
                0 <= k < 25 && 0 <= i < 64 ==> mixing_out_holds(
                    flag as int,
                    negated as int,
                    lanes_view(non_mix)[k][i] as int,
                    lanes_view(mix)[k][i] as int,
                    #[trigger] lanes_view(out)[k][i] as int,
                )),
    {
        let ghost mv = lanes_view(mix);
        let ghost nv = lanes_view(non_mix);
        let ghost ov = lanes_view(out);
        let mut k: usize = 0;
        while k < 25
            invariant
                k <= 25,
                mv == lanes_view(mix),
                nv == lanes_view(non_mix),
                ov == lanes_view(out),
                state_wf(mv, 64, 255),
                state_wf(nv, 64, 255),
                state_wf(ov, 64, 255),
                forall|q: int, i: int|
                    0 <= q < k && 0 <= i < 64 ==> mixing_out_holds(
                        flag as int,
                        negated as int,
                        nv[q][i] as int,
                        mv[q][i] as int,
                        #[trigger] ov[q][i] as int,
                    ),
            decreases 25 - k,
        {
            let mut i: usize = 0;
            while i < 64
                invariant
                    k < 25,
                    i <= 64,
                    mv == lanes_view(mix),
                    nv == lanes_view(non_mix),
                    ov == lanes_view(out),
                    state_wf(mv, 64, 255),
                    state_wf(nv, 64, 255),
                    state_wf(ov, 64, 255),
                    forall|j: int|
                        0 <= j < i ==> mixing_out_holds(
                            flag as int,
                            negated as int,
                            nv[k as int][j] as int,
                            mv[k as int][j] as int,
                            #[trigger] ov[k as int][j] as int,
                        ),
                decreases 64 - i,
            {
                proof {
                    assert(mix@[k as int]@ == mv[k as int]);
                    assert(non_mix@[k as int]@ == nv[k as int]);
                    assert(out@[k as int]@ == ov[k as int]);
                    let a = nv[k as int][i as int] as int;
                    let b = mv[k as int][i as int] as int;
                    assert(0 <= a * negated <= 255 * 255) by (nonlinear_arith)
                        requires
                            0 <= a <= 255,
                            0 <= negated <= 255,
                    ;
                    assert(0 <= b * flag <= 255 * 255) by (nonlinear_arith)
                        requires
                            0 <= b <= 255,
                            0 <= flag <= 255,
                    ;
                }
                let lhs = non_mix[k][i] as u32 * negated as u32 + mix[k][i] as u32 * flag as u32;
                if lhs != out[k][i] as u32 {
                    return false;
                }
                i = i + 1;
            }
            k = k + 1;
        }
        true
    }

    /// The finalizing branch: Iota in base 9 with the last round constant.
    pub fn finalize_branch(in_state: &Vec<Vec<u8>>) -> (r: Vec<Vec<u8>>)
        requires
            state_wf(lanes_view(in_state), 64, 6),
        ensures
            lanes_view(&r) == mixing_spec(lanes_view(in_state), false, Seq::empty()),
            state_wf(lanes_view(&r), 64, 8),
    {
        let mut non_mix = copy_state(in_state);
        iota_b9(&mut non_mix, round_constant(23));
        non_mix
    }

    /// The absorbing branch: Absorb of `next`, conversion to base 13, and
    /// Iota in base 13 with the last round constant.
    pub fn absorb_branch(in_state: &Vec<Vec<u8>>, next: &Vec<u64>) -> (r: Vec<Vec<u8>>)
        requires
            state_wf(lanes_view(in_state), 64, 6),
            next@.len() == 17,
        ensures
            lanes_view(&r) == mixing_spec(lanes_view(in_state), true, next@),
            state_wf(lanes_view(&r), 64, 2),
    {
        let absorbed = AbsorbConfig::copy_state_flag_next_inputs(in_state, next);
        let mut mix = convert_b9_state_to_b13(&absorbed);
        iota_b13(&mut mix, round_constant(23));
        mix
    }

    /// Mixing on the state after Xi of the last round: both branches are
    /// computed and the flag picks one. Without a block, zeros are absorbed.
    pub fn assign_state(in_state: &Vec<Vec<u8>>, flag_bool: bool, next_mixing: &Option<Vec<u64>>) -> (r:
        Vec<Vec<u8>>)
        requires
            state_wf(lanes_view(in_state), 64, 6),
            next_or_zero(*next_mixing).len() == 17,
        ensures
            lanes_view(&r) == mixing_spec(lanes_view(in_state), flag_bool, next_or_zero(*next_mixing)),
            state_wf(lanes_view(&r), 64, 8),
    {
        let (flag, negated) = Self::enforce_flag_consistency(flag_bool);
        let non_mix = Self::finalize_branch(in_state);
        let next: Vec<u64> = match next_mixing {
            Some(v) => v.clone(),
            None => {
                let mut z: Vec<u64> = Vec::new();
                let mut i: usize = 0;
                while i < ABSORB_NEXT_INPUTS
                    invariant
                        i <= 17,
                        z@.len() == i,
                        forall|j: int| 0 <= j < i ==> #[trigger] z@[j] == 0u64,
                    decreases 17 - i,
                {
                    z.push(0);
                    i = i + 1;
                }
                proof {
                    assert(z@ =~= next_or_zero(*next_mixing));
                }
                z
            },
        };
        let mix = Self::absorb_branch(in_state, &next);
        proof {
            assert(state_wf(lanes_view(&mix), 64, 255));
            assert(state_wf(lanes_view(&non_mix), 64, 255));
        }
        Self::assign_out_mixing_states(flag, negated, &mix, &non_mix)
    }
}

} // verus!
