use keccak256::arith::{convert_b9_coef, theta_arith, xi_arith};
use keccak256::circuit::{assign_to_xi, decode_state, encode_state, Error, KeccakFConfig, TestCircuit};
use keccak256::encoding::digits_to_bits;
use keccak256::keccak::{chi, keccak_f, theta};
use keccak256::mixing::{AbsorbConfig, MixingConfig};
use keccak256::rho_checks::RhoConfig;

const ZERO_PERMUTED: [u64; 25] = [
    0xf1258f7940e1dde7, 0xff97a42d7f8e6fd4, 0xeb5aa93f2317d635, 0x05e5635a21d9ae61,
    0x940c7922ae3a2614, 0x84d5ccf933c0478a, 0x90fee5a0a44647c4, 0xa9a6e6260d712103,
    0x64befef28cc970f2, 0x1841f924a2c509e4, 0xd598261ea65aa9ee, 0x8c5bda0cd6192e76,
    0x81a57c16dbcf555f, 0x613670957bc46611, 0x16f53526e70465c2, 0xbd1547306f80494d,
    0xad30a6f71b19059c, 0x43b831cd0347c826, 0xb87c5a554fd00ecb, 0x75f644e97f30a13b,
    0x8b284e056253d057, 0x30935ab7d08ffc64, 0x01f22f1a11a5569f, 0x8c3ee88a1ccf32c8,
    0xeaf1ff7b5ceca249,
];

// Keccak-f of the state whose lane (0, 0) is 1 and every other lane 0.
const ONE_PERMUTED: [u64; 25] = [
    0xe2a944396f0b13c6, 0x25b8444d0aea8b74, 0x23fbed32ed720767, 0x0bca1b8d9d0d82fc,
    0x333256c252840104, 0x70fec06ceb0b06c4, 0x9396ef8130f1be5c, 0xac2329d693b10d76,
    0xe2ad33926d474c63, 0x9f111faa6a08d2e5, 0x721dfc5018f27a42, 0x87a98f12b6ad542c,
    0x493d4a7a941b2026, 0x6a5415a4ebed8dfe, 0x6d1f6a874f916feb, 0x64a2af57149f7096,
    0x727078041f4f63f7, 0x700069b797e2f86c, 0xed6a86e4fecbac62, 0xf716ae69d3a57f06,
    0xd3bc0b3f2712e2e6, 0x92cbec3174d6f74a, 0x95d8e3aee6fc4b8c, 0xd86e73c1b945a137,
    0xf5a843755d5374af,
];

fn sample_state() -> Vec<u64> {
    (0..25u64).map(|k| 0x0123_4567_89ab_cdef ^ k.wrapping_mul(0x9e37_79b9_7f4a_7c15)).collect()
}

fn single_lane(v: u64, n: usize) -> Vec<u64> {
    let mut s = vec![0u64; n];
    s[0] = v;
    s
}

#[test]
fn bitwise_permutation_of_zero_state() {
    assert_eq!(keccak_f(&vec![0u64; 25]), ZERO_PERMUTED.to_vec());
    assert_eq!(keccak_f(&single_lane(1, 25)), ONE_PERMUTED.to_vec());
}

#[test]
fn arithmetized_permutation_of_zero_state() {
    let zero = encode_state(&vec![0u64; 25]);
    let out = KeccakFConfig::permute(&zero, false, &None);
    assert_eq!(decode_state(&out, true), ZERO_PERMUTED.to_vec());
}

#[test]
fn single_absorption_matches_the_sponge() {
    let input = encode_state(&vec![0u64; 25]);
    let block: Vec<u64> = (0..17u64).map(|i| 0x0101_0101_0101_0101u64.wrapping_mul(i + 1)).collect();
    let out = KeccakFConfig::permute(&input, true, &Some(block.clone()));
    let mut expected = ZERO_PERMUTED.to_vec();
    for i in 0..17 {
        expected[i] ^= block[i];
    }
    assert_eq!(decode_state(&out, false), expected);
    let branch = MixingConfig::absorb_branch(&assign_to_xi(&last_rounds(&input)), &block);
    assert_eq!(branch, out);
}

fn last_rounds(input: &Vec<Vec<u8>>) -> Vec<Vec<u8>> {
    let mut s = input.clone();
    for round in 0..23 {
        let mut t = assign_to_xi(&s);
        keccak256::arith::iota_b9(&mut t, keccak256::common::round_constant(round));
        s = keccak256::arith::convert_b9_state_to_b13(&t);
    }
    s
}

#[test]
fn theta_matches_bitwise_theta() {
    let a = sample_state();
    let d = theta_arith(&encode_state(&a));
    let expected = theta(&a);
    for k in 0..25 {
        assert_eq!(d[k].len(), 65);
        let mut bits: Vec<u8> = d[k][0..64].iter().map(|x| x % 2).collect();
        bits[0] = (d[k][0] + d[k][64]) % 2;
        assert_eq!(digits_to_bits(&bits), expected[k], "lane {}", k);
    }
}

#[test]
fn xi_matches_bitwise_chi() {
    let a = sample_state();
    let d = xi_arith(&encode_state(&a));
    let expected = chi(&a);
    for k in 0..25 {
        let bits: Vec<u8> = d[k].iter().map(|x| convert_b9_coef(*x)).collect();
        assert_eq!(digits_to_bits(&bits), expected[k], "lane {}", k);
    }
}

#[test]
fn flag_consistency() {
    assert!(MixingConfig::check_flag_consistency(0, 1));
    assert!(MixingConfig::check_flag_consistency(1, 0));
    assert!(!MixingConfig::check_flag_consistency(1, 1));
    assert!(!MixingConfig::check_flag_consistency(0, 0));
    // sums to one but neither is Boolean
    assert!(!MixingConfig::check_flag_consistency(2, u64::MAX));
    assert!(!MixingConfig::check_flag_consistency(2, 1));
    assert_eq!(MixingConfig::enforce_flag_consistency(true), (1, 0));
    assert_eq!(MixingConfig::enforce_flag_consistency(false), (0, 1));
}

#[test]
fn mixing_selection() {
    let xi_out = assign_to_xi(&encode_state(&sample_state()));
    let non_mix = MixingConfig::finalize_branch(&xi_out);
    let mix = MixingConfig::absorb_branch(&xi_out, &single_lane(5, 17));
    assert_ne!(mix, non_mix);
    // flag off: only the finalizing branch is accepted
    assert!(MixingConfig::check_out_state(0, 1, &mix, &non_mix, &non_mix));
    assert!(!MixingConfig::check_out_state(0, 1, &mix, &non_mix, &mix));
    // flag on: only the absorbing branch is accepted
    assert!(MixingConfig::check_out_state(1, 0, &mix, &non_mix, &mix));
    assert!(!MixingConfig::check_out_state(1, 0, &mix, &non_mix, &non_mix));
    assert_eq!(MixingConfig::assign_out_mixing_states(0, 1, &mix, &non_mix), non_mix);
    assert_eq!(MixingConfig::assign_out_mixing_states(1, 0, &mix, &non_mix), mix);
    assert_eq!(MixingConfig::assign_state(&xi_out, false, &Some(single_lane(5, 17))), non_mix);
    assert_eq!(MixingConfig::assign_state(&xi_out, true, &Some(single_lane(5, 17))), mix);
}

#[test]
fn test_keccak_round() {
    let in_state = encode_state(&single_lane(1, 25));
    let next_input = single_lane(2, 17);

    // no block: the full permutation ending with Iota in base 9
    let out_non_mix = KeccakFConfig::permute(&in_state, false, &None);
    assert_eq!(decode_state(&out_non_mix, true), ONE_PERMUTED.to_vec());
    assert_eq!(
        KeccakFConfig::assign_all(&in_state, &out_non_mix, false, &None),
        Ok(out_non_mix.clone())
    );
    let wrong_input = encode_state(&decode_state(&out_non_mix, true));
    assert!(KeccakFConfig::assign_all(&wrong_input, &out_non_mix, true, &None).is_err());

    // with a block: Absorb, conversion and Iota in base 13
    let out_mix = KeccakFConfig::permute(&in_state, true, &Some(next_input.clone()));
    let mut expected = ONE_PERMUTED.to_vec();
    expected[0] ^= 2;
    assert_eq!(decode_state(&out_mix, false), expected);
    assert_eq!(
        KeccakFConfig::assign_all(&in_state, &out_mix, true, &Some(next_input.clone())),
        Ok(out_mix.clone())
    );
    assert_eq!(
        KeccakFConfig::assign_all(&wrong_input, &out_non_mix, true, &Some(next_input)),
        Err(Error::OutStateMismatch)
    );
}

#[test]
fn test_absorb_gate() {
    // the state in base 9 with lane (0, 0) = 1, and the block with lane (0, 0) = 2
    let in_state = encode_state(&single_lane(1, 25));
    let next_input = single_lane(2, 17);
    let out_state = AbsorbConfig::copy_state_flag_next_inputs(&in_state, &next_input);
    // digit 0 keeps the state's 1, digit 1 gets twice the block's bit
    assert_eq!(&out_state[0][0..3], &[1, 2, 0]);
    assert_eq!(&out_state[1..], &in_state[1..]);
    // flag on: the right output passes, the input state claimed as output fails
    assert!(AbsorbConfig::check_gate(1, &in_state, &next_input, &out_state));
    assert!(!AbsorbConfig::check_gate(1, &in_state, &next_input, &in_state));
    // with the flag at 0 nothing is enforced
    assert!(AbsorbConfig::check_gate(0, &in_state, &next_input, &in_state));
}

#[test]
fn absorb_gate_keeps_the_capacity_lanes() {
    let in_state = encode_state(&single_lane(1, 25));
    let next_input = single_lane(2, 17);
    let mut out_state = AbsorbConfig::copy_state_flag_next_inputs(&in_state, &next_input);
    out_state[20][5] = 1;
    assert!(!AbsorbConfig::check_gate(1, &in_state, &next_input, &out_state));
    assert!(AbsorbConfig::check_gate(0, &in_state, &next_input, &out_state));
}

#[test]
fn test_mixing_gate() {
    // the state in base 9 with lane (0, 0) = 1 goes straight into Mixing
    let in_state = encode_state(&single_lane(1, 25));
    let next = single_lane(2, 17);
    let out_mixing = MixingConfig::assign_state(&in_state, true, &Some(next.clone()));
    let out_non_mixing = MixingConfig::assign_state(&in_state, false, &None);
    assert_eq!(out_mixing, MixingConfig::absorb_branch(&in_state, &next));
    assert_eq!(out_non_mixing, MixingConfig::finalize_branch(&in_state));
    let mix = MixingConfig::absorb_branch(&in_state, &next);
    let non_mix = MixingConfig::finalize_branch(&in_state);
    // flag on: the mixing result passes, the non-mixing one fails
    let (f, n) = MixingConfig::enforce_flag_consistency(true);
    assert!(MixingConfig::check_out_state(f, n, &mix, &non_mix, &out_mixing));
    assert!(!MixingConfig::check_out_state(f, n, &mix, &non_mix, &out_non_mixing));
    // flag off: the non-mixing result passes, the input state fails
    let (f, n) = MixingConfig::enforce_flag_consistency(false);
    assert!(MixingConfig::check_out_state(f, n, &mix, &non_mix, &out_non_mixing));
    assert!(!MixingConfig::check_out_state(f, n, &mix, &non_mix, &in_state));
}

#[test]
fn circuit_errors() {
    let mut c = TestCircuit::without_witnesses();
    assert!(!c.is_mixing && c.next_mixing.is_none());
    assert_eq!(c.synthesize(), Err(Error::OutStateMismatch));
    c.out_state = KeccakFConfig::permute(&c.in_state, false, &None);
    assert!(c.synthesize().is_ok());
    c.next_mixing = Some(vec![0u64; 16]);
    assert_eq!(c.synthesize(), Err(Error::NextInputLength));
    c.next_mixing = None;
    c.in_state[3][7] = 2;
    assert_eq!(c.synthesize(), Err(Error::MalformedState));
    c.in_state.pop();
    assert_eq!(c.synthesize(), Err(Error::MalformedState));
}

#[test]
fn rho_block_counts_of_a_real_state() {
    let t = theta_arith(&encode_state(&sample_state()));
    assert!(KeccakFConfig::check_rho_block_counts(&t));
    let (out, chunks) = RhoConfig::assign_rotation_checks(&t);
    assert_eq!(out.len(), 25);
    assert_eq!(chunks.len(), 412);
}
