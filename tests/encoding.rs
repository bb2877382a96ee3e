use keccak256::encoding::{bits_to_digits, digits_to_bits};
use keccak256::rho_checks::{
    base13_to_base9_row, get_step_size, slice_lane, BlockCount2, BlockCountAccConfig,
    BlockCountFinalConfig, ChunkWitness,
    LaneRotateConversionConfig, SumConfig,
};
use keccak256::common::rotation_constant;
use keccak256::keccak::rotate_lane;

#[test]
fn round_trip_of_words() {
    for v in [0u64, 1, 2, 0x8000_0000_0000_0000, 0xdead_beef_0123_4567, u64::MAX] {
        let d = bits_to_digits(v);
        assert_eq!(d.len(), 64);
        assert!(d.iter().all(|x| *x < 2));
        assert_eq!(digits_to_bits(&d), v);
    }
}

#[test]
fn digits_are_the_bits_least_significant_first() {
    let d = bits_to_digits(0b1011);
    assert_eq!(&d[0..5], &[1, 1, 0, 1, 0]);
    assert!(d[5..].iter().all(|x| *x == 0));
    let mut e = vec![0u8; 64];
    e[63] = 1;
    assert_eq!(digits_to_bits(&e), 0x8000_0000_0000_0000);
}

#[test]
fn table_rows() {
    assert_eq!(base13_to_base9_row(0), (0, 0));
    assert_eq!(base13_to_base9_row(1), (1, 0));
    assert_eq!(base13_to_base9_row(12), (0, 0));
    // digits [0, 1]: two digits used
    assert_eq!(base13_to_base9_row(13), (9, 1));
    // digits [1, 1, 1]
    assert_eq!(base13_to_base9_row(183), (91, 13));
    // digits [1, 0, 0, 2]
    assert_eq!(base13_to_base9_row(2 * 2197 + 1), (1, 170));
    // digits [3, 5, 7, 9]: all odd
    assert_eq!(base13_to_base9_row(3 + 5 * 13 + 7 * 169 + 9 * 2197), (1 + 9 + 81 + 729, 170));
}

#[test]
fn step_sizes_near_the_wrap_point() {
    // rotation 1: the wrap point is input digit 63
    assert_eq!(get_step_size(61, 1), 2);
    assert_eq!(get_step_size(1, 1), 4);
    assert_eq!(get_step_size(63, 1), 1);
    // rotation 0: only the end of the lane cuts
    assert_eq!(get_step_size(61, 0), 3);
    assert_eq!(get_step_size(62, 0), 2);
}

#[test]
fn slicings_cover_each_lane() {
    let mut count = [0usize; 5];
    for k in 0..25 {
        let r = rotation_constant(k);
        let s = slice_lane(r);
        assert_eq!(s[0].0, 1);
        let mut next = 1;
        for (idx, step) in s.iter() {
            assert_eq!(*idx, next);
            next += step;
            count[*step as usize] += 1;
        }
        assert_eq!(next, 64);
    }
    assert_eq!(count[2], 12);
    assert_eq!(count[3], 13);
    assert_eq!(count[1], 12);
}

fn lane13(v: u64, high: u8) -> Vec<u8> {
    let mut d = bits_to_digits(v);
    d.push(high);
    d
}

#[test]
fn rho_rotates_every_lane() {
    let words = [0u64, u64::MAX, 1, 0x0123_4567_89ab_cdef, 0x8000_0000_0000_0001];
    for k in 0..25 {
        let config = LaneRotateConversionConfig::configure(k);
        let r = rotation_constant(k);
        for v in words {
            let w = config.assign_region(&lane13(v, 0));
            assert_eq!(w.output.len(), 64);
            assert_eq!(digits_to_bits(&w.output), rotate_lane(v, r), "lane {} word {:x}", k, v);
        }
    }
}

#[test]
fn rho_merges_the_end_digits() {
    // low digit 3, high digit 4: odd sum, so the bit at the rotation offset is set
    let mut lane = vec![0u8; 65];
    lane[0] = 3;
    lane[64] = 4;
    let config = LaneRotateConversionConfig::configure(5);
    let w = config.assign_region(&lane);
    assert_eq!(w.special_output, 1);
    assert_eq!(digits_to_bits(&w.output), 1u64 << config.rotation);
    // all-max digits: 12 is even, so every converted bit is 0
    let mut lane = vec![12u8; 65];
    lane[0] = 6;
    lane[64] = 6;
    let w = config.assign_region(&lane);
    assert_eq!(digits_to_bits(&w.output), 0);
    assert!(w.chunks.iter().all(|c| c.block_count as u32 <= [0u32, 0, 1, 13, 170][c.step as usize]));
}

fn chunk(step: u32, input_coef: u32) -> ChunkWitness {
    let (output_coef, block_count) = base13_to_base9_row(input_coef);
    ChunkWitness { chunk_idx: 1, step, input_coef, output_coef, block_count }
}

#[test]
fn honest_chunks_pass_the_block_count_check() {
    let mut all = Vec::new();
    for k in 0..25 {
        let config = LaneRotateConversionConfig::configure(k);
        let mut lane = vec![12u8; 65];
        lane[0] = 6;
        lane[64] = 6;
        let w = config.assign_region(&lane);
        all.extend(w.chunks);
    }
    assert!(BlockCountFinalConfig::check_chunks(&all));
}

#[test]
fn step1_chunk_with_second_digit_fails() {
    let chunks = vec![chunk(4, 28560), chunk(1, 13 + 1)];
    assert!(!BlockCountFinalConfig::check_chunks(&chunks));
    assert!(BlockCountFinalConfig::check_chunks(&vec![chunk(4, 28560), chunk(1, 12)]));
}

#[test]
fn step2_chunk_with_three_digits_fails() {
    // one over-full step-2 chunk among otherwise clean ones
    let chunks = vec![chunk(2, 169), chunk(2, 0), chunk(3, 0)];
    assert!(!BlockCountFinalConfig::check_chunks(&chunks));
    // twelve step-2 chunks at their bound still pass
    let chunks: Vec<ChunkWitness> = (0..12).map(|_| chunk(2, 168)).collect();
    assert!(BlockCountFinalConfig::check_chunks(&chunks));
}

#[test]
fn step3_chunk_with_four_digits_fails() {
    let chunks = vec![chunk(3, 2197)];
    assert!(!BlockCountFinalConfig::check_chunks(&chunks));
    let chunks: Vec<ChunkWitness> = (0..13).map(|_| chunk(3, 2196)).collect();
    assert!(BlockCountFinalConfig::check_chunks(&chunks));
}

#[test]
fn running_sum() {
    let sums = SumConfig::assign_region(&vec![1, 13, 0, 170]);
    assert_eq!(sums, vec![0, 1, 14, 14, 184]);
    assert_eq!(SumConfig::assign_region(&vec![]), vec![0]);
}

#[test]
fn chunk_coefficients_match_the_lanes() {
    // lane value digits: i % 13 at input position i (65 digits, ends summing below 13)
    let mut lane: Vec<u8> = (0..65).map(|i| (i % 13) as u8).collect();
    lane[0] = 5;
    lane[64] = 7;
    for k in [0usize, 1, 10, 24] {
        let config = LaneRotateConversionConfig::configure(k);
        let r = config.rotation as usize;
        let w = config.assign_region(&lane);
        for c in w.chunks.iter() {
            let start = c.chunk_idx as usize;
            let step = c.step as usize;
            let mut coef = 0u32;
            let mut out = 0u32;
            let pos = (start + r) % 64;
            for t in (0..step).rev() {
                coef = coef * 13 + lane[start + t] as u32;
                out = out * 9 + w.output[pos + t] as u32;
            }
            assert_eq!(c.input_coef, coef);
            assert_eq!(c.output_coef, out);
        }
        assert_eq!(w.output[r], 0);
    }
}

#[test]
fn final_block_count_bounds() {
    let bc = |step1_clean, step2_acc, step3_acc| BlockCount2 { step1_clean, step2_acc, step3_acc };
    assert!(BlockCountFinalConfig::assign_region(bc(true, 12, 169)));
    assert!(BlockCountFinalConfig::assign_region(bc(true, 0, 0)));
    assert!(!BlockCountFinalConfig::assign_region(bc(true, 13, 0)));
    assert!(!BlockCountFinalConfig::assign_region(bc(true, 0, 170)));
    assert!(!BlockCountFinalConfig::assign_region(bc(false, 0, 0)));
}

#[test]
fn block_counts_accumulate_per_step() {
    let chunks = vec![chunk(2, 13), chunk(3, 169), chunk(2, 0), chunk(4, 28560), chunk(1, 5)];
    let acc = BlockCountAccConfig::assign_region(&chunks);
    assert_eq!(acc, BlockCount2 { step1_clean: true, step2_acc: 1, step3_acc: 13 });
    let acc = BlockCountAccConfig::assign_region(&vec![chunk(1, 13)]);
    assert!(!acc.step1_clean);
}

#[test]
fn rho_witness_check() {
    let mut lane: Vec<u8> = (0..65).map(|i| ((i * 7) % 13) as u8).collect();
    lane[0] = 4;
    lane[64] = 5;
    for k in [0usize, 3, 17] {
        let config = LaneRotateConversionConfig::configure(k);
        let w = config.assign_region(&lane);
        assert!(config.check_witness(&lane, &w.chunks, w.special_output, &w.output));
        // wrong special output
        assert!(!config.check_witness(&lane, &w.chunks, 1 - w.special_output, &w.output));
        // an output digit changed
        let mut out = w.output.clone();
        out[(config.rotation as usize + 5) % 64] ^= 1;
        assert!(!config.check_witness(&lane, &w.chunks, w.special_output, &out));
        // a chunk coefficient changed, kept a table row
        let mut chunks = w.chunks.clone();
        chunks[2].input_coef += 1;
        let (o, b) = base13_to_base9_row(chunks[2].input_coef);
        chunks[2].output_coef = o;
        chunks[2].block_count = b;
        assert!(!config.check_witness(&lane, &chunks, w.special_output, &w.output));
        // a chunk missing
        let mut chunks = w.chunks.clone();
        chunks.pop();
        assert!(!config.check_witness(&lane, &chunks, w.special_output, &w.output));
    }
}

#[test]
fn rho_witness_check_accepts_a_carried_chunk() {
    // moving a digit of one chunk into the chunk below as 13 times its value
    // keeps the input accumulator, and the lookup flags it by its block count
    let lane: Vec<u8> = {
        let mut l = vec![0u8; 65];
        l[5] = 1;
        l
    };
    let config = LaneRotateConversionConfig::configure(0);
    let w = config.assign_region(&lane);
    assert!(config.check_witness(&lane, &w.chunks, w.special_output, &w.output));
    assert_eq!(w.chunks[0].chunk_idx, 1);
    assert_eq!(w.chunks[1].chunk_idx, 5);
    let mut chunks = w.chunks.clone();
    chunks[0].input_coef = 13 * 13 * 13 * 13;
    chunks[1].input_coef = 0;
    // 13^4 is no row of the four-digit table
    assert!(!config.check_witness(&lane, &chunks, w.special_output, &w.output));
}
