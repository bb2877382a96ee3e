//! Rho: every lane is rotated by its offset and converted from base 13 to
//! base 9, chunk by chunk, with the block counts that catch a chunk holding
//! more digits than its step allows.
use vstd::prelude::*;
use crate::arith::lanes_view;
use crate::common::{rotation_constant, rotation_offset};
use crate::encoding::{
    add_at, digits_equal, zero_digits, bit, digits_value, digits_in_range, lane_digits, lemma_digits_value_single,
    lemma_digits_value_split, lemma_power_add, power,
};
use crate::keccak::{lemma_bit_rotl, rotl};

verus! {

/// Digits in a full chunk.
pub const BASE_NUM_OF_CHUNKS: u32 = 4;

/// Bound on the sum of the block counts of all step-2 chunks.
pub const STEP2_RANGE: u64 = 12;

/// Bound on the sum of the block counts of all step-3 chunks.
pub const STEP3_RANGE: u64 = 169;

/// Block count of a chunk that uses `n` digits.
pub open spec fn overflow_transform(n: nat) -> nat {
    if n <= 1 {
        0
    } else if n == 2 {
        1
    } else if n == 3 {
        13
    } else {
        170
    }
}

/// How many base-13 digits the coefficient `c` uses (up to its highest
/// non-zero one).
pub open spec fn digits_used(c: nat) -> nat {
    if c == 0 {
        0
    } else if c < 13 {
        1
    } else if c < 169 {
        2
    } else if c < 2197 {
        3
    } else {
        4
    }
}

/// The base-9 coefficient that the table gives for the base-13 coefficient
/// `c` of a full chunk: each digit reduced to its parity.
pub open spec fn table_base9(c: nat) -> nat {
    (c % 13) % 2 + 9 * (((c / 13) % 13) % 2) + 81 * (((c / 169) % 13) % 2) + 729 * (((c
        / 2197) % 13) % 2)
}

/// Reduces a base-13 digit to the bit it stands for.
pub fn convert_b13_coef(x: u8) -> (r: u8)
    requires
        x < 13,
    ensures
        r == x % 2,
{
    x % 2
}

/// One row of the base-13 to base-9 table: for a four-digit base-13
/// coefficient, its base-9 coefficient and its block count.
pub fn base13_to_base9_row(c: u32) -> (r: (u32, u8))
    requires
        c < 28561,
    ensures
        r.0 == table_base9(c as nat),
        r.1 == overflow_transform(digits_used(c as nat)),
{
    let out = (c % 13) % 2 + 9 * (((c / 13) % 13) % 2) + 81 * (((c / 169) % 13) % 2) + 729 * (((c
        / 2197) % 13) % 2);
    let bc: u8 = if c < 13 {
        0
    } else if c < 169 {
        1
    } else if c < 2197 {
        13
    } else {
        170
    };
    (out, bc)
}

/// Width of the chunk that starts at input digit `chunk_idx` in a lane
/// rotated by `rotation`: four digits, fewer where the chunk would run past
/// the wrap-around point `64 - rotation` or past the end of the lane.
pub open spec fn step_size(chunk_idx: int, rotation: int) -> int {
    if chunk_idx < 64 - rotation && 64 - rotation - chunk_idx < BASE_NUM_OF_CHUNKS as int {
        64 - rotation - chunk_idx
    } else if 64 - chunk_idx < BASE_NUM_OF_CHUNKS as int {
        64 - chunk_idx
    } else {
        BASE_NUM_OF_CHUNKS as int
    }
}

pub fn get_step_size(chunk_idx: u32, rotation: u32) -> (r: u32)
    requires
        1 <= chunk_idx < 64,
        rotation < 64,
    ensures
        r == step_size(chunk_idx as int, rotation as int),
        1 <= r <= 4,
        chunk_idx + r <= 64,
{
    if chunk_idx < 64 - rotation && 64 - rotation - chunk_idx < BASE_NUM_OF_CHUNKS {
        64 - rotation - chunk_idx
    } else if 64 - chunk_idx < BASE_NUM_OF_CHUNKS {
        64 - chunk_idx
    } else {
        BASE_NUM_OF_CHUNKS
    }
}

/// `s` lists chunks `(start, step)` that cover input digits `1..64` in
/// order, none crossing the wrap-around point of `rotation`.
pub open spec fn slices_valid(s: Seq<(u32, u32)>, rotation: int) -> bool {
    &&& s.len() > 0
    &&& s[0].0 == 1
    &&& s[s.len() - 1].0 + s[s.len() - 1].1 == 64
    &&& forall|j: int| 0 <= j < s.len() ==> 1 <= (#[trigger] s[j]).1 <= 4
    &&& forall|j: int| 0 <= j < s.len() ==> (#[trigger] s[j]).1 == step_size(s[j].0 as int, rotation)
    &&& forall|j: int| 0 < j < s.len() ==> (#[trigger] s[j]).0 == s[j - 1].0 + s[j - 1].1
    &&& forall|j: int|
        0 <= j < s.len() ==> ((#[trigger] s[j]).0 < 64 - rotation ==> s[j].0 + s[j].1 <= 64
            - rotation)
}

/// The chunks `(start, step)` from input digit `idx` to the end of the lane.
pub open spec fn slicing_from(idx: int, rotation: int) -> Seq<(u32, u32)>
    decreases 64 - idx,
{
    if idx >= 64 || idx < 1 || rotation < 0 || rotation >= 64 {
        Seq::empty()
    } else {
        seq![(idx as u32, step_size(idx, rotation) as u32)] + slicing_from(
            idx + step_size(idx, rotation),
            rotation,
        )
    }
}

/// The chunks of a lane rotated by `rotation`, from input digit 1 up.
pub fn slice_lane(rotation: u32) -> (r: Vec<(u32, u32)>)
    requires
        rotation < 64,
    ensures
        r@ == slicing_from(1, rotation as int),
        slices_valid(r@, rotation as int),
        r@.len() <= 64,
{
    let mut out: Vec<(u32, u32)> = Vec::new();
    let mut chunk_idx: u32 = 1;
    while chunk_idx < 64
        invariant
            1 <= chunk_idx <= 64,
            rotation < 64,
            out@.len() < chunk_idx,
            out@.len() == 0 ==> chunk_idx == 1,
            out@.len() > 0 ==> out@[0].0 == 1,
            out@.len() > 0 ==> out@[out@.len() - 1].0 + out@[out@.len() - 1].1 == chunk_idx,
            forall|j: int| 0 <= j < out@.len() ==> 1 <= (#[trigger] out@[j]).1 <= 4,
            forall|j: int|
                0 <= j < out@.len() ==> (#[trigger] out@[j]).1 == step_size(
                    out@[j].0 as int,
                    rotation as int,
                ),
            forall|j: int| 0 < j < out@.len() ==> (#[trigger] out@[j]).0 == out@[j - 1].0 + out@[j - 1].1,
            forall|j: int|
                0 <= j < out@.len() ==> ((#[trigger] out@[j]).0 < 64 - rotation ==> out@[j].0
                    + out@[j].1 <= 64 - rotation),
            out@ + slicing_from(chunk_idx as int, rotation as int) == slicing_from(1, rotation as int),
        decreases 64 - chunk_idx,
    {
        let step = get_step_size(chunk_idx, rotation);
        proof {
            let rest = slicing_from((chunk_idx + step) as int, rotation as int);
            assert(slicing_from(chunk_idx as int, rotation as int) == seq![(chunk_idx, step)] + rest);
            assert(out@.push((chunk_idx, step)) + rest =~= out@ + (seq![(chunk_idx, step)] + rest));
        }
        out.push((chunk_idx, step));
        chunk_idx = chunk_idx + step;
    }
    proof {
        assert(slicing_from(64, rotation as int) =~= Seq::<(u32, u32)>::empty());
        assert(out@ + Seq::<(u32, u32)>::empty() =~= out@);
    }
    out
}

/// The witness of one chunk: where it starts, its step, its base-13 and
/// base-9 coefficients, and its block count.
#[derive(Clone, Copy, Debug, PartialEq, Eq)]
pub struct ChunkWitness {
    pub chunk_idx: u32,
    pub step: u32,
    pub input_coef: u32,
    pub output_coef: u32,
    pub block_count: u8,
}

/// The witness of chunk `c = (start, step)` of `lane`: its base-13
/// coefficient read from the lane, and the table's row for it.
pub open spec fn chunk_witness_spec(lane: Seq<u8>, c: (u32, u32)) -> ChunkWitness {
    let coef = digits_value(lane.subrange(c.0 as int, (c.0 + c.1) as int), 13);
    ChunkWitness {
        chunk_idx: c.0,
        step: c.1,
        input_coef: coef as u32,
        output_coef: table_base9(coef) as u32,
        block_count: overflow_transform(digits_used(coef)) as u8,
    }
}

/// The witnesses of the chunks `sl` of `lane`.
pub open spec fn chunks_of(lane: Seq<u8>, sl: Seq<(u32, u32)>) -> Seq<ChunkWitness> {
    sl.map_values(|c: (u32, u32)| chunk_witness_spec(lane, c))
}

/// The chunk witnesses of one lane rotated by `rotation`.
pub open spec fn lane_chunks_spec(lane: Seq<u8>, rotation: int) -> Seq<ChunkWitness> {
    chunks_of(lane, slicing_from(1, rotation))
}

/// The chunk's coefficients and block count are a row of the table.
pub open spec fn chunk_in_table(c: ChunkWitness) -> bool {
    &&& c.input_coef < 28561
    &&& c.output_coef == table_base9(c.input_coef as nat)
    &&& c.block_count == overflow_transform(digits_used(c.input_coef as nat))
}

/// The chunk holds non-zero digits beyond its step.
pub open spec fn chunk_overflows(c: ChunkWitness) -> bool {
    digits_used(c.input_coef as nat) > c.step
}

/// Output lane of Rho on a 65-digit input lane: input digit `i` lands at
/// position `i + rotation` (mod 64) reduced to its parity, and the two end
/// digits are merged at position `rotation`.
pub open spec fn rho_lane_spec(d: Seq<u8>, rotation: int) -> Seq<u8> {
    Seq::new(
        64,
        |j: int|
            if j == rotation {
                ((d[0] + d[64]) % 2) as u8
            } else {
                (d[(j + 64 - rotation) % 64] % 2) as u8
            },
    )
}

/// Value of the digits `start .. start + len` of `d` in `base`, for a chunk
/// of at most four digits below 13.
fn chunk_value(d: &Vec<u8>, start: usize, len: usize, base: u32) -> (r: u32)
    requires
        start + len <= d@.len(),
        len <= 4,
        2 <= base <= 13,
        digits_in_range(d@, 13),
    ensures
        r == digits_value(d@.subrange(start as int, (start + len) as int), base as nat),
        r < 28561,
{
    let mut r: u32 = 0;
    let mut t: usize = len;
    let n = d.len();
    proof {
        assert(d@.subrange((start + len) as int, (start + len) as int) =~= Seq::<u8>::empty());
    }
    while t > 0
        invariant
            t <= len,
            n == d@.len(),
            start + len <= d@.len(),
            len <= 4,
            2 <= base <= 13,
            digits_in_range(d@, 13),
            r == digits_value(d@.subrange((start + t) as int, (start + len) as int), base as nat),
            r < power(13, (len - t) as nat),
        decreases t,
    {
        proof {
            let s = d@.subrange((start + t - 1) as int, (start + len) as int);
            assert(s.subrange(1, s.len() as int) =~= d@.subrange(
                (start + t) as int,
                (start + len) as int,
            ));
            assert(s[0] == d@[start + t - 1]);
            assert(d@[start + t - 1] < 13);
            let p = power(13, (len - t) as nat);
            assert(power(13, (len - t + 1) as nat) == 13 * p);
            assert(r * base + d@[start + t - 1] < 13 * p) by (nonlinear_arith)
                requires
                    r < p,
                    base <= 13,
                    d@[start + t - 1] < 13,
            ;
            crate::encoding::lemma_power_monotonic(13, (len - t + 1) as nat, 4);
            assert(power(13, 4) == 28561) by {
                reveal_with_fuel(power, 5);
            }
            assert(r * base + d@[start + t - 1] < 28561);
            assert(r * base == base * r) by (nonlinear_arith);
            assert(digits_value(s, base as nat) == s[0] as nat + base * digits_value(
                s.subrange(1, s.len() as int),
                base as nat,
            ));
        }
        r = r * base + d[start + t - 1] as u32;
        t = t - 1;
    }
    proof {
        assert(power(13, len as nat) <= 28561) by {
            crate::encoding::lemma_power_monotonic(13, len as nat, 4);
            reveal_with_fuel(power, 5);
        }
    }
    r
}

/// Rho on one lane: the rotation offset of the lane and the lane's index.
#[derive(Clone, Copy, Debug)]
pub struct LaneRotateConversionConfig {
    pub rotation: u32,
    pub lane_idx: usize,
}

/// The output of Rho on one lane with all its witnesses.
pub struct RhoLaneWitness {
    /// The rotated lane in base 9, one digit per bit.
    pub output: Vec<u8>,
    /// One witness per chunk, in the order of `slice_lane`.
    pub chunks: Vec<ChunkWitness>,
    /// The bit that the two end digits merge into.
    pub special_output: u8,
}

impl LaneRotateConversionConfig {
    pub fn configure(lane_idx: usize) -> (r: Self)
        requires
            lane_idx < 25,
        ensures
            r.lane_idx == lane_idx,
            r.rotation == rotation_offset(lane_idx as int),
    {
        LaneRotateConversionConfig { rotation: rotation_constant(lane_idx), lane_idx }
    }

    /// Converts a 65-digit base-13 lane whose end digits sum below 13 and
    /// witnesses each of its chunks.
    pub fn assign_region(&self, lane: &Vec<u8>) -> (r: RhoLaneWitness)
        requires
            self.rotation < 64,
            lane@.len() == 65,
            digits_in_range(lane@, 13),
            lane@[0] + lane@[64] < 13,
        ensures
            r.output@ == rho_lane_spec(lane@, self.rotation as int),
            r.special_output == (lane@[0] + lane@[64]) % 2,
            r.chunks@ == lane_chunks_spec(lane@, self.rotation as int),
            slices_valid(
                Seq::new(r.chunks@.len(), |j: int| (r.chunks@[j].chunk_idx, r.chunks@[j].step)),
                self.rotation as int,
            ),
            input_acc_sum(r.chunks@) + lane@[0] + lane@[64] * power(13, 64) == digits_value(
                lane@,
                13,
            ),
            output_acc_sum(r.chunks@, self.rotation as int) + r.special_output * power(
                9,
                self.rotation as nat,
            ) == digits_value(r.output@, 9),
            forall|j: int|
                0 <= j < r.chunks@.len() ==> {
                    let c = #[trigger] r.chunks@[j];
                    &&& chunk_in_table(c)
                    &&& !chunk_overflows(c)
                    &&& c.input_coef == digits_value(
                        lane@.subrange(c.chunk_idx as int, (c.chunk_idx + c.step) as int),
                        13,
                    )
                },
    {
        let rot = self.rotation;
        let mut output: Vec<u8> = Vec::new();
        let mut j: usize = 0;
        while j < 64
            invariant
                rot == self.rotation,
                rot < 64,
                j <= 64,
                lane@.len() == 65,
                digits_in_range(lane@, 13),
                lane@[0] + lane@[64] < 13,
                output@.len() == j,
                forall|q: int|
                    0 <= q < j ==> #[trigger] output@[q] == rho_lane_spec(lane@, rot as int)[q],
            decreases 64 - j,
        {
            if j == rot as usize {
                output.push(convert_b13_coef(lane[0] + lane[64]));
            } else {
                output.push(convert_b13_coef(lane[(j + 64 - rot as usize) % 64]));
            }
            j = j + 1;
        }
        let slices = slice_lane(rot);
        let mut chunks: Vec<ChunkWitness> = Vec::new();
        let mut q: usize = 0;
        while q < slices.len()
            invariant
                rot == self.rotation,
                rot < 64,
                q <= slices@.len(),
                slices_valid(slices@, rot as int),
                lane@.len() == 65,
                digits_in_range(lane@, 13),
                chunks@.len() == q,
                slices@ == slicing_from(1, rot as int),
                forall|j: int|
                    0 <= j < q ==> #[trigger] chunks@[j] == chunk_witness_spec(lane@, slices@[j]),
                forall|j: int|
                    0 <= j < q ==> (#[trigger] chunks@[j]).chunk_idx == slices@[j].0
                        && chunks@[j].step == slices@[j].1,
                forall|j: int|
                    0 <= j < q ==> {
                        let c = #[trigger] chunks@[j];
                        &&& chunk_in_table(c)
                        &&& !chunk_overflows(c)
                        &&& c.input_coef == digits_value(
                            lane@.subrange(c.chunk_idx as int, (c.chunk_idx + c.step) as int),
                            13,
                        )
                    },
            decreases slices@.len() - q,
        {
            let (idx, step) = slices[q];
            proof {
                assert(1 <= slices@[q as int].1 <= 4);
                if q > 0 {
                    assert(slices@[q as int].0 == slices@[q - 1].0 + slices@[q - 1].1);
                }
                lemma_slice_in_lane(slices@, rot as int, q as int);
            }
            let input_coef = chunk_value(lane, idx as usize, step as usize, 13);
            let (output_coef, block_count) = base13_to_base9_row(input_coef);
            proof {
                let s = lane@.subrange(idx as int, (idx + step) as int);
                assert(digits_in_range(s, 13)) by {
                    assert forall|t: int| 0 <= t < s.len() implies #[trigger] s[t] < 13 by {
                        assert(s[t] == lane@[idx + t]);
                    }
                }
                crate::encoding::lemma_digits_value_bound(s, 13);
                lemma_used_bound(input_coef as nat, step as nat);
            }
            chunks.push(ChunkWitness { chunk_idx: idx, step, input_coef, output_coef, block_count });
            q = q + 1;
        }
        proof {
            let v = Seq::new(chunks@.len(), |j: int| (chunks@[j].chunk_idx, chunks@[j].step));
            assert(v =~= slices@);
            assert(chunks@ =~= lane_chunks_spec(lane@, rot as int));
            lemma_input_accumulator(lane@, chunks@, rot as int);
            assert forall|j: int| 0 <= j < chunks@.len() implies (#[trigger] chunks@[j]).input_coef
                == digits_value(
                lane@.subrange(
                    chunks@[j].chunk_idx as int,
                    (chunks@[j].chunk_idx + chunks@[j].step) as int,
                ),
                13,
            ) && chunks@[j].output_coef == table_base9(chunks@[j].input_coef as nat) by {
                assert(chunk_in_table(chunks@[j]));
            }
            lemma_output_accumulator(lane@, chunks@, rot as int);
            assert(output@ == rho_lane_spec(lane@, rot as int));
        }
        RhoLaneWitness { output, chunks, special_output: convert_b13_coef(lane[0] + lane[64]) }
    }
}

/// Every chunk of a valid slicing lies within digits `1..64`.
proof fn lemma_slice_in_lane(s: Seq<(u32, u32)>, rotation: int, q: int)
    requires
        slices_valid(s, rotation),
        0 <= q < s.len(),
    ensures
        1 <= s[q].0,
        s[q].0 + s[q].1 <= 64,
    decreases s.len() - q,
{
    if q == 0 {
        if s.len() > 1 {
            lemma_slice_in_lane(s, rotation, 1);
            assert(s[1].0 == s[0].0 + s[0].1);
        }
    } else {
        assert(s[q].0 == s[q - 1].0 + s[q - 1].1);
        lemma_slice_start_positive(s, rotation, q - 1);
        if q < s.len() - 1 {
            lemma_slice_in_lane(s, rotation, q + 1);
            assert(s[q + 1].0 == s[q].0 + s[q].1);
            assert(1 <= s[q + 1].1);
        }
    }
}

proof fn lemma_slice_start_positive(s: Seq<(u32, u32)>, rotation: int, q: int)
    requires
        slices_valid(s, rotation),
        0 <= q < s.len(),
    ensures
        1 <= s[q].0,
    decreases q,
{
    if q > 0 {
        lemma_slice_start_positive(s, rotation, q - 1);
        assert(s[q].0 == s[q - 1].0 + s[q - 1].1);
    }
}

/// A coefficient below `13 ** step` uses at most `step` digits.
proof fn lemma_used_bound(c: nat, step: nat)
    requires
        1 <= step <= 4,
        c < power(13, step),
    ensures
        digits_used(c) <= step,
        overflow_transform(digits_used(c)) <= overflow_transform(step),
{
    reveal_with_fuel(power, 5);
}

/// Rho on the base-13 digits of a word (with a zero high digit) gives the
/// base-9 digits of the word rotated left by the offset.
pub proof fn lemma_rho_correct(v: u64, rotation: u32)
    requires
        rotation < 64,
    ensures
        rho_lane_spec(lane_digits(v).push(0), rotation as int) == lane_digits(rotl(v, rotation)),
{
    let d = lane_digits(v).push(0);
    let r = rotation as int;
    assert forall|j: int| 0 <= j < 64 implies #[trigger] rho_lane_spec(d, r)[j] == lane_digits(
        rotl(v, rotation),
    )[j] by {
        lemma_bit_rotl(v, rotation, j);
        crate::encoding::lemma_bit_xor(v, v, (j + 64 - r) % 64);
        if j == r {
            assert((j + 64 - r) % 64 == 0);
            assert(d[64] == 0);
            assert(d[0] == bit(v, 0));
        } else {
            assert(d[(j + 64 - r) % 64] == bit(v, (j + 64 - r) % 64));
        }
    }
    assert(rho_lane_spec(d, r) =~= lane_digits(rotl(v, rotation)));
}

/// Sum of the block counts of the chunks of step `step`.
pub open spec fn step_total(cs: Seq<ChunkWitness>, step: u32) -> int
    decreases cs.len(),
{
    if cs.len() == 0 {
        0
    } else {
        step_total(cs.drop_last(), step) + (if cs.last().step == step {
            cs.last().block_count as int
        } else {
            0
        })
    }
}

/// Number of chunks of step `step`.
pub open spec fn step_count(cs: Seq<ChunkWitness>, step: u32) -> int
    decreases cs.len(),
{
    if cs.len() == 0 {
        0
    } else {
        step_count(cs.drop_last(), step) + (if cs.last().step == step {
            1int
        } else {
            0
        })
    }
}

/// What the final block-count gate accepts: every step-1 chunk has block
/// count 0, the step-2 total is at most 12 and the step-3 total at most 169.
pub open spec fn block_counts_accepted(cs: Seq<ChunkWitness>) -> bool {
    &&& forall|j: int| 0 <= j < cs.len() && (#[trigger] cs[j]).step == 1 ==> cs[j].block_count == 0
    &&& step_total(cs, 2) <= STEP2_RANGE
    &&& step_total(cs, 3) <= STEP3_RANGE
}

/// Running sum: `sums[0] == 0` and `sums[j + 1] == sums[j] + xs[j]`.
pub struct SumConfig;

impl SumConfig {
    /// The running sums of `xs`, one more than its length; the last is the total.
    pub fn assign_region(xs: &Vec<u8>) -> (sums: Vec<u64>)
        requires
            xs@.len() < 0x1_0000_0000,
        ensures
            sums@.len() == xs@.len() + 1,
            sums@[0] == 0,
            forall|j: int| 0 <= j < xs@.len() ==> #[trigger] sums@[j + 1] == sums@[j] + xs@[j],
    {
        let mut sums: Vec<u64> = Vec::new();
        sums.push(0);
        let mut acc: u64 = 0;
        let mut j: usize = 0;
        while j < xs.len()
            invariant
                j <= xs@.len(),
                xs@.len() < 0x1_0000_0000,
                sums@.len() == j + 1,
                sums@[0] == 0,
                acc == sums@[j as int],
                acc <= 255 * j,
                forall|q: int| 0 <= q < j ==> #[trigger] sums@[q + 1] == sums@[q] + xs@[q],
            decreases xs@.len() - j,
        {
            acc = acc + xs[j] as u64;
            sums.push(acc);
            j = j + 1;
        }
        sums
    }
}

/// The accumulated block counts of the chunks of all lanes.
#[derive(Clone, Copy, Debug, PartialEq, Eq)]
pub struct BlockCount2 {
    /// Whether every step-1 chunk has block count 0.
    pub step1_clean: bool,
    pub step2_acc: u64,
    pub step3_acc: u64,
}

/// Accumulates block counts per step class.
pub struct BlockCountAccConfig;

impl BlockCountAccConfig {
    pub fn assign_region(cs: &Vec<ChunkWitness>) -> (r: BlockCount2)
        requires
            cs@.len() < 0x1_0000_0000,
        ensures
            r.step1_clean == (forall|j: int|
                0 <= j < cs@.len() && (#[trigger] cs@[j]).step == 1 ==> cs@[j].block_count == 0),
            r.step2_acc == step_total(cs@, 2),
            r.step3_acc == step_total(cs@, 3),
    {
        let mut clean = true;
        let mut s2: u64 = 0;
        let mut s3: u64 = 0;
        let mut j: usize = 0;
        while j < cs.len()
            invariant
                j <= cs@.len(),
                cs@.len() < 0x1_0000_0000,
                clean == (forall|q: int|
                    0 <= q < j && (#[trigger] cs@[q]).step == 1 ==> cs@[q].block_count == 0),
                s2 == step_total(cs@.subrange(0, j as int), 2),
                s3 == step_total(cs@.subrange(0, j as int), 3),
                s2 <= 255 * j,
                s3 <= 255 * j,
            decreases cs@.len() - j,
        {
            let c = cs[j];
            proof {
                let pre = cs@.subrange(0, j as int + 1);
                assert(pre.drop_last() =~= cs@.subrange(0, j as int));
                assert(pre.last() == c);
            }
            if c.step == 1 && c.block_count != 0 {
                clean = false;
            }
            if c.step == 2 {
                s2 = s2 + c.block_count as u64;
            }
            if c.step == 3 {
                s3 = s3 + c.block_count as u64;
            }
            j = j + 1;
        }
        proof {
            assert(cs@.subrange(0, cs@.len() as int) =~= cs@);
        }
        BlockCount2 { step1_clean: clean, step2_acc: s2, step3_acc: s3 }
    }
}

/// The range-check polynomial `acc * (acc - 1) * ... * (acc - n)`.
pub open spec fn vanishing_product(acc: int, n: nat) -> int
    decreases n,
{
    if n == 0 {
        acc
    } else {
        vanishing_product(acc, (n - 1) as nat) * (acc - n)
    }
}

/// The range-check polynomial vanishes exactly on `0..=n`.
pub proof fn lemma_vanishing_product(acc: int, n: nat)
    ensures
        vanishing_product(acc, n) == 0 <==> 0 <= acc <= n,
    decreases n,
{
    if n > 0 {
        lemma_vanishing_product(acc, (n - 1) as nat);
        vstd::arithmetic::mul::lemma_mul_nonzero(vanishing_product(acc, (n - 1) as nat), acc - n);
    }
}

/// The final range check on the accumulated block counts.
pub struct BlockCountFinalConfig;

impl BlockCountFinalConfig {
    /// Accepts when step-1 chunks are clean and both range-check
    /// polynomials vanish, that is when the step-2 total is at most 12 and
    /// the step-3 total at most 169.
    pub fn assign_region(bc: BlockCount2) -> (r: bool)
        ensures
            r == (bc.step1_clean && vanishing_product(bc.step2_acc as int, STEP2_RANGE as nat) == 0
                && vanishing_product(bc.step3_acc as int, STEP3_RANGE as nat) == 0),
            r == (bc.step1_clean && bc.step2_acc <= STEP2_RANGE && bc.step3_acc <= STEP3_RANGE),
    {
        proof {
            lemma_vanishing_product(bc.step2_acc as int, STEP2_RANGE as nat);
            lemma_vanishing_product(bc.step3_acc as int, STEP3_RANGE as nat);
        }
        bc.step1_clean && bc.step2_acc <= STEP2_RANGE && bc.step3_acc <= STEP3_RANGE
    }

    /// Runs the block-count gates on the chunks of all lanes.
    pub fn check_chunks(cs: &Vec<ChunkWitness>) -> (r: bool)
        requires
            cs@.len() < 0x1_0000_0000,
        ensures
            r == block_counts_accepted(cs@),
    {
        let bc = BlockCountAccConfig::assign_region(cs);
        Self::assign_region(bc)
    }
}

proof fn lemma_step_total_ge(cs: Seq<ChunkWitness>, step: u32, j: int)
    requires
        0 <= j < cs.len(),
        cs[j].step == step,
    ensures
        step_total(cs, step) >= cs[j].block_count,
    decreases cs.len(),
{
    if j < cs.len() - 1 {
        lemma_step_total_ge(cs.drop_last(), step, j);
    } else {
        lemma_step_total_nonneg(cs.drop_last(), step);
    }
}

proof fn lemma_step_total_nonneg(cs: Seq<ChunkWitness>, step: u32)
    ensures
        step_total(cs, step) >= 0,
    decreases cs.len(),
{
    if cs.len() > 0 {
        lemma_step_total_nonneg(cs.drop_last(), step);
    }
}

/// A chunk of step 1, 2 or 3 that holds non-zero digits beyond its step
/// makes the block-count check fail, whatever the other chunks hold, as
/// long as every chunk is a row of the table.
pub proof fn lemma_overflow_rejected(cs: Seq<ChunkWitness>, j: int)
    requires
        forall|q: int| 0 <= q < cs.len() ==> chunk_in_table(#[trigger] cs[q]),
        0 <= j < cs.len(),
        1 <= cs[j].step <= 3,
        chunk_overflows(cs[j]),
    ensures
        !block_counts_accepted(cs),
        cs[j].step == 1 ==> cs[j].block_count != 0,
        cs[j].step == 2 ==> step_total(cs, 2) > STEP2_RANGE,
        cs[j].step == 3 ==> step_total(cs, 3) > STEP3_RANGE,
{
    assert(chunk_in_table(cs[j]));
    if cs[j].step == 2 {
        lemma_step_total_ge(cs, 2, j);
    } else if cs[j].step == 3 {
        lemma_step_total_ge(cs, 3, j);
    }
}

proof fn lemma_step_total_bound(cs: Seq<ChunkWitness>, step: u32, per: int)
    requires
        forall|q: int|
            0 <= q < cs.len() && (#[trigger] cs[q]).step == step ==> cs[q].block_count <= per,
    ensures
        step_total(cs, step) <= per * step_count(cs, step),
    decreases cs.len(),
{
    if cs.len() > 0 {
        let t = cs.drop_last();
        assert forall|q: int| 0 <= q < t.len() && (#[trigger] t[q]).step == step implies t[q].block_count
            <= per by {
            assert(t[q] == cs[q]);
        }
        lemma_step_total_bound(t, step, per);
        assert(per * step_count(t, step) + (if cs.last().step == step {
            per
        } else {
            0
        }) == per * step_count(cs, step)) by (nonlinear_arith)
            requires
                step_count(cs, step) == step_count(t, step) + (if cs.last().step == step {
                    1int
                } else {
                    0
                }),
        ;
    }
}

/// Honest chunks pass the check when there are at most 12 chunks of step 2
/// and at most 13 of step 3, as the slicings of the 25 lanes give.
pub proof fn lemma_honest_accepted(cs: Seq<ChunkWitness>)
    requires
        forall|q: int| 0 <= q < cs.len() ==> chunk_in_table(#[trigger] cs[q]),
        forall|q: int| 0 <= q < cs.len() ==> !chunk_overflows(#[trigger] cs[q]),
        step_count(cs, 2) <= 12,
        step_count(cs, 3) <= 13,
    ensures
        block_counts_accepted(cs),
{
    assert forall|q: int| 0 <= q < cs.len() && (#[trigger] cs[q]).step == 2 implies cs[q].block_count
        <= 1 by {
        assert(chunk_in_table(cs[q]) && !chunk_overflows(cs[q]));
    }
    assert forall|q: int| 0 <= q < cs.len() && (#[trigger] cs[q]).step == 3 implies cs[q].block_count
        <= 13 by {
        assert(chunk_in_table(cs[q]) && !chunk_overflows(cs[q]));
    }
    assert forall|q: int| 0 <= q < cs.len() && (#[trigger] cs[q]).step == 1 implies cs[q].block_count
        == 0 by {
        assert(chunk_in_table(cs[q]) && !chunk_overflows(cs[q]));
    }
    lemma_step_total_bound(cs, 2, 1);
    lemma_step_total_bound(cs, 3, 13);
}

/// Rho on a whole state: the lanes of `rho_lane_spec`, each with its offset.
pub open spec fn rho_state_spec(s: Seq<Seq<u8>>) -> Seq<Seq<u8>> {
    Seq::new(25, |k: int| rho_lane_spec(s[k], rotation_offset(k) as int))
}

/// The chunk witnesses of the first `n` lanes of a state, lane after lane.
pub open spec fn state_chunks_spec(s: Seq<Seq<u8>>, n: nat) -> Seq<ChunkWitness>
    decreases n,
{
    if n == 0 {
        Seq::empty()
    } else {
        state_chunks_spec(s, (n - 1) as nat) + lane_chunks_spec(s[n - 1], rotation_offset(n - 1) as int)
    }
}

/// Rho on all 25 lanes.
pub struct RhoConfig;

impl RhoConfig {
    /// Converts every lane and gathers the chunk witnesses of all lanes.
    pub fn assign_rotation_checks(state: &Vec<Vec<u8>>) -> (r: (Vec<Vec<u8>>, Vec<ChunkWitness>))
        requires
            state@.len() == 25,
            forall|k: int| 0 <= k < 25 ==> (#[trigger] state@[k]@).len() == 65,
            forall|k: int| 0 <= k < 25 ==> digits_in_range(#[trigger] state@[k]@, 13),
            forall|k: int| 0 <= k < 25 ==> (#[trigger] state@[k]@)[0] + state@[k]@[64] < 13,
        ensures
            r.0@.len() == 25,
            forall|k: int|
                0 <= k < 25 ==> #[trigger] r.0@[k]@ == rho_lane_spec(
                    state@[k]@,
                    rotation_offset(k) as int,
                ),
            r.1@ == state_chunks_spec(lanes_view(state), 25),
            r.1@.len() <= 25 * 64,
            forall|j: int|
                0 <= j < r.1@.len() ==> chunk_in_table(#[trigger] r.1@[j]) && !chunk_overflows(
                    r.1@[j],
                ),
    {
        let mut out: Vec<Vec<u8>> = Vec::new();
        let mut chunks: Vec<ChunkWitness> = Vec::new();
        let mut k: usize = 0;
        while k < 25
            invariant
                k <= 25,
                state@.len() == 25,
                forall|q: int| 0 <= q < 25 ==> (#[trigger] state@[q]@).len() == 65,
                forall|q: int| 0 <= q < 25 ==> digits_in_range(#[trigger] state@[q]@, 13),
                forall|q: int| 0 <= q < 25 ==> (#[trigger] state@[q]@)[0] + state@[q]@[64] < 13,
                out@.len() == k,
                forall|q: int|
                    0 <= q < k ==> #[trigger] out@[q]@ == rho_lane_spec(
                        state@[q]@,
                        rotation_offset(q) as int,
                    ),
                chunks@.len() <= 64 * k,
                chunks@ == state_chunks_spec(lanes_view(state), k as nat),
                forall|j: int|
                    0 <= j < chunks@.len() ==> chunk_in_table(#[trigger] chunks@[j])
                        && !chunk_overflows(chunks@[j]),
            decreases 25 - k,
        {
            let config = LaneRotateConversionConfig::configure(k);
            let w = config.assign_region(&state[k]);
            proof {
                let v = Seq::new(w.chunks@.len(), |j: int| (w.chunks@[j].chunk_idx, w.chunks@[j].step));
                assert(v.len() == w.chunks@.len());
                lemma_slices_len(v, config.rotation as int);
            }
            let mut q: usize = 0;
            let ghost before = chunks@;
            while q < w.chunks.len()
                invariant
                    q <= w.chunks@.len(),
                    w.chunks@.len() <= 64,
                    chunks@.len() == before.len() + q,
                    chunks@ == before + w.chunks@.subrange(0, q as int),
                    before.len() <= 64 * k,
                    forall|j: int| 0 <= j < before.len() ==> #[trigger] chunks@[j] == before[j],
                    forall|j: int| 0 <= j < q ==> #[trigger] chunks@[before.len() + j] == w.chunks@[j],
                    forall|j: int|
                        0 <= j < before.len() ==> chunk_in_table(#[trigger] before[j])
                            && !chunk_overflows(before[j]),
                    forall|j: int|
                        0 <= j < w.chunks@.len() ==> {
                            let c = #[trigger] w.chunks@[j];
                            &&& chunk_in_table(c)
                            &&& !chunk_overflows(c)
                        },
                decreases w.chunks@.len() - q,
            {
                proof {
                    assert(before + w.chunks@.subrange(0, q + 1) =~= (before + w.chunks@.subrange(
                        0,
                        q as int,
                    )).push(w.chunks@[q as int]));
                }
                chunks.push(w.chunks[q]);
                q = q + 1;
            }
            proof {
                assert(w.chunks@.subrange(0, w.chunks@.len() as int) =~= w.chunks@);
                assert(lanes_view(state)[k as int] == state@[k as int]@);
                assert(chunks@ == state_chunks_spec(lanes_view(state), (k + 1) as nat));
                assert forall|j: int| 0 <= j < chunks@.len() implies chunk_in_table(
                    #[trigger] chunks@[j],
                ) && !chunk_overflows(chunks@[j]) by {
                    if j >= before.len() {
                        assert(chunks@[before.len() + (j - before.len())] == w.chunks@[j
                            - before.len()]);
                    }
                }
            }
            out.push(w.output);
            k = k + 1;
        }
        (out, chunks)
    }
}

/// A valid slicing has at most 63 chunks.
proof fn lemma_slices_len(s: Seq<(u32, u32)>, rotation: int)
    requires
        slices_valid(s, rotation),
    ensures
        s.len() <= 64,
{
    lemma_slice_start_grows(s, rotation, s.len() - 1);
    lemma_slice_in_lane(s, rotation, s.len() - 1);
}

proof fn lemma_slice_start_grows(s: Seq<(u32, u32)>, rotation: int, q: int)
    requires
        slices_valid(s, rotation),
        0 <= q < s.len(),
    ensures
        s[q].0 >= q + 1,
    decreases q,
{
    if q > 0 {
        lemma_slice_start_grows(s, rotation, q - 1);
        assert(s[q].0 == s[q - 1].0 + s[q - 1].1);
    }
}

/// Sum of the chunks' base-13 coefficients, each at the power of 13 of the
/// digit it starts at: what the running-down input accumulator takes away.
pub open spec fn input_acc_sum(cs: Seq<ChunkWitness>) -> int
    decreases cs.len(),
{
    if cs.len() == 0 {
        0
    } else {
        input_acc_sum(cs.drop_last()) + cs.last().input_coef * power(13, cs.last().chunk_idx as nat)
    }
}

/// The chunks of a valid slicing, with coefficients read from `lane`, take
/// away everything but digits 0 and 64: the input accumulator ends at
/// `low + high * 13 ** 64`.
pub proof fn lemma_input_accumulator(lane: Seq<u8>, cs: Seq<ChunkWitness>, rotation: int)
    requires
        lane.len() == 65,
        slices_valid(Seq::new(cs.len(), |j: int| (cs[j].chunk_idx, cs[j].step)), rotation),
        forall|j: int|
            0 <= j < cs.len() ==> (#[trigger] cs[j]).input_coef == digits_value(
                lane.subrange(cs[j].chunk_idx as int, (cs[j].chunk_idx + cs[j].step) as int),
                13,
            ),
    ensures
        input_acc_sum(cs) + lane[0] + lane[64] * power(13, 64) == digits_value(lane, 13),
{
    let sl = Seq::new(cs.len(), |j: int| (cs[j].chunk_idx, cs[j].step));
    lemma_input_prefix(lane, cs, rotation, cs.len() as int);
    let last = cs.len() - 1;
    assert(sl[last].0 + sl[last].1 == 64);
    assert(cs.subrange(0, cs.len() as int) =~= cs);
    // lane = d0 + 13 * (digits 1..64) + 13 ** 64 * d64
    let v1 = digits_value(lane.subrange(1, 64), 13);
    lemma_digits_value_split(lane, 1, 64, 65, 13);
    let tail = lane.subrange(64, 65);
    assert(tail.subrange(1, 1) =~= Seq::<u8>::empty());
    assert(digits_value(tail, 13) == tail[0] + 13 * digits_value(tail.subrange(1, 1), 13));
    assert(digits_value(tail, 13) == lane[64] as nat) by {
        let z = digits_value(tail.subrange(1, 1), 13);
        assert(13 * z == 0) by (nonlinear_arith)
            requires
                z == 0,
        ;
    }
    assert(lane.subrange(1, 65) =~= lane.subrange(1, lane.len() as int));
    assert(lane.subrange(0, 65) =~= lane);
    assert(digits_value(lane, 13) == lane[0] + 13 * digits_value(lane.subrange(1, 65), 13));
    let p63 = power(13, 63);
    assert(power(13, 64) == 13 * p63);
    assert(13 * (v1 + p63 * lane[64]) == 13 * v1 + lane[64] * (13 * p63)) by (nonlinear_arith);
}

proof fn lemma_input_prefix(lane: Seq<u8>, cs: Seq<ChunkWitness>, rotation: int, q: int)
    requires
        lane.len() == 65,
        slices_valid(Seq::new(cs.len(), |j: int| (cs[j].chunk_idx, cs[j].step)), rotation),
        forall|j: int|
            0 <= j < cs.len() ==> (#[trigger] cs[j]).input_coef == digits_value(
                lane.subrange(cs[j].chunk_idx as int, (cs[j].chunk_idx + cs[j].step) as int),
                13,
            ),
        0 <= q <= cs.len(),
    ensures
        input_acc_sum(cs.subrange(0, q)) == 13 * digits_value(
            lane.subrange(
                1,
                if q == 0 {
                    1
                } else {
                    (cs[q - 1].chunk_idx + cs[q - 1].step) as int
                },
            ),
            13,
        ),
    decreases q,
{
    let sl = Seq::new(cs.len(), |j: int| (cs[j].chunk_idx, cs[j].step));
    if q == 0 {
        assert(lane.subrange(1, 1) =~= Seq::<u8>::empty());
        assert(cs.subrange(0, 0) =~= Seq::<ChunkWitness>::empty());
    } else {
        lemma_input_prefix(lane, cs, rotation, q - 1);
        let c = cs[q - 1];
        assert(sl[q - 1] == (c.chunk_idx, c.step));
        lemma_slice_in_lane(sl, rotation, q - 1);
        let start = c.chunk_idx as int;
        let end = (c.chunk_idx + c.step) as int;
        let prev_end = if q == 1 {
            1
        } else {
            (cs[q - 2].chunk_idx + cs[q - 2].step) as int
        };
        if q == 1 {
            assert(sl[0].0 == 1);
        } else {
            assert(sl[q - 1].0 == sl[q - 2].0 + sl[q - 2].1);
        }
        assert(prev_end == start);
        let pre = cs.subrange(0, q);
        assert(pre.drop_last() =~= cs.subrange(0, q - 1));
        assert(pre.last() == c);
        lemma_digits_value_split(lane, 1, start, end, 13);
        let lo = digits_value(lane.subrange(1, start), 13);
        let mid = digits_value(lane.subrange(start, end), 13);
        let p = power(13, (start - 1) as nat);
        assert(power(13, start as nat) == 13 * p);
        assert(13 * (lo + p * mid) == 13 * lo + mid * (13 * p)) by (nonlinear_arith);
    }
}

/// Digit `t` of `d`, or 0 past its end.
pub open spec fn digit_or_zero(d: Seq<u8>, t: int) -> int {
    if 0 <= t < d.len() {
        d[t] as int
    } else {
        0
    }
}

/// Each digit reduced to its parity.
pub open spec fn parities(d: Seq<u8>) -> Seq<u8> {
    Seq::new(d.len(), |t: int| d[t] % 2)
}

proof fn lemma_short_value(d: Seq<u8>, b: nat)
    requires
        d.len() <= 4,
    ensures
        digits_value(d, b) == digit_or_zero(d, 0) + b * digit_or_zero(d, 1) + b * b * digit_or_zero(
            d,
            2,
        ) + b * b * b * digit_or_zero(d, 3),
    decreases d.len(),
{
    if d.len() > 0 {
        let t = d.subrange(1, d.len() as int);
        lemma_short_value(t, b);
        assert(digit_or_zero(t, 0) == digit_or_zero(d, 1));
        assert(digit_or_zero(t, 1) == digit_or_zero(d, 2));
        assert(digit_or_zero(t, 2) == digit_or_zero(d, 3));
        assert(digit_or_zero(t, 3) == 0);
        let (t0, t1, t2) = (digit_or_zero(t, 0), digit_or_zero(t, 1), digit_or_zero(t, 2));
        assert(b * (t0 + b * t1 + b * b * t2 + b * b * b * 0) == b * t0 + b * b * t1 + b * b * b * t2)
            by (nonlinear_arith);
    } else {
        assert(b * 0 + b * b * 0 + b * b * b * 0 == 0) by (nonlinear_arith);
    }
}

/// The table reduces each digit of a chunk to its parity.
proof fn lemma_table_chunk(d: Seq<u8>)
    requires
        d.len() <= 4,
        digits_in_range(d, 13),
    ensures
        table_base9(digits_value(d, 13)) == digits_value(parities(d), 9),
{
    let pd = parities(d);
    lemma_short_value(d, 13);
    lemma_short_value(pd, 9);
    let (e0, e1, e2, e3) = (digit_or_zero(d, 0), digit_or_zero(d, 1), digit_or_zero(d, 2), digit_or_zero(d, 3));
    assert(0 <= e0 < 13 && 0 <= e1 < 13 && 0 <= e2 < 13 && 0 <= e3 < 13) by {
        if 0 < d.len() { assert(d[0] < 13); }
        if 1 < d.len() { assert(d[1] < 13); }
        if 2 < d.len() { assert(d[2] < 13); }
        if 3 < d.len() { assert(d[3] < 13); }
    }
    assert(digit_or_zero(pd, 0) == e0 % 2);
    assert(digit_or_zero(pd, 1) == e1 % 2);
    assert(digit_or_zero(pd, 2) == e2 % 2);
    assert(digit_or_zero(pd, 3) == e3 % 2);
    let c = e0 + 13 * e1 + 169 * e2 + 2197 * e3;
    assert(digits_value(d, 13) == c);
    assert(c == (e1 + 13 * e2 + 169 * e3) * 13 + e0) by (nonlinear_arith)
        requires
            c == e0 + 13 * e1 + 169 * e2 + 2197 * e3,
    ;
    assert(c == e3 * 2197 + (e0 + 13 * e1 + 169 * e2)) by (nonlinear_arith)
        requires
            c == e0 + 13 * e1 + 169 * e2 + 2197 * e3,
    ;
    assert(0 <= e0 + 13 * e1 + 169 * e2 < 2197) by (nonlinear_arith)
        requires
            0 <= e0 < 13,
            0 <= e1 < 13,
            0 <= e2 < 13,
    ;
    vstd::arithmetic::div_mod::lemma_fundamental_div_mod_converse(c, 13, e1 + 13 * e2 + 169 * e3, e0);
    vstd::arithmetic::div_mod::lemma_fundamental_div_mod_converse(
        e1 + 13 * e2 + 169 * e3,
        13,
        e2 + 13 * e3,
        e1,
    );
    vstd::arithmetic::div_mod::lemma_fundamental_div_mod_converse(c, 169, e2 + 13 * e3, e0 + 13 * e1);
    vstd::arithmetic::div_mod::lemma_fundamental_div_mod_converse(e2 + 13 * e3, 13, e3, e2);
    vstd::arithmetic::div_mod::lemma_fundamental_div_mod_converse(c, 2197, e3, e0 + 13 * e1 + 169 * e2);
    vstd::arithmetic::div_mod::lemma_fundamental_div_mod_converse(e3, 13, 0, e3);
}

/// Sum of the chunks' base-9 coefficients, each at the power of 9 of the
/// output position it lands on: what the running-up output accumulator adds.
pub open spec fn output_acc_sum(cs: Seq<ChunkWitness>, rotation: int) -> int
    decreases cs.len(),
{
    if cs.len() == 0 {
        0
    } else {
        output_acc_sum(cs.drop_last(), rotation) + cs.last().output_coef * power(
            9,
            ((cs.last().chunk_idx + rotation) % 64) as nat,
        )
    }
}

/// The part of the output value that the chunks covering input digits
/// `1..end` make up.
pub open spec fn covered_output(out: Seq<u8>, rotation: int, end: int) -> int {
    if end <= 64 - rotation {
        (power(9, (rotation + 1) as nat) * digits_value(out.subrange(rotation + 1, end + rotation), 9)) as int
    } else {
        (power(9, (rotation + 1) as nat) * digits_value(out.subrange(rotation + 1, 64), 9)
            + digits_value(out.subrange(0, end + rotation - 64), 9)) as int
    }
}

/// The output digits that a chunk lands on are the parities of its input
/// digits.
proof fn lemma_chunk_segment(lane: Seq<u8>, rotation: int, start: int, step: int)
    requires
        lane.len() == 65,
        0 <= rotation < 64,
        1 <= start,
        1 <= step,
        start + step <= 64,
        start < 64 - rotation ==> start + step <= 64 - rotation,
    ensures
        ({
            let pos = (start + rotation) % 64;
            &&& pos + step <= 64
            &&& pos == (if start < 64 - rotation {
                start + rotation
            } else {
                start + rotation - 64
            })
            &&& rho_lane_spec(lane, rotation).subrange(pos, pos + step) == parities(
                lane.subrange(start, start + step),
            )
        }),
{
    let out = rho_lane_spec(lane, rotation);
    let pos = (start + rotation) % 64;
    if start < 64 - rotation {
        assert(pos == start + rotation);
    } else {
        assert(pos == start + rotation - 64);
    }
    let seg = out.subrange(pos, pos + step);
    let par = parities(lane.subrange(start, start + step));
    assert forall|t: int| 0 <= t < step implies #[trigger] seg[t] == par[t] by {
        let j = pos + t;
        assert(j != rotation);
        assert((j + 64 - rotation) % 64 == start + t);
    }
    assert(seg =~= par);
}

/// Adding the chunk over input digits `start .. end` extends the covered
/// part of the output by the digits it lands on.
proof fn lemma_covered_step(out: Seq<u8>, r: int, start: int, end: int)
    requires
        out.len() == 64,
        0 <= r < 64,
        1 <= start < end <= 64,
        start < 64 - r ==> end <= 64 - r,
    ensures
        ({
            let pos = (start + r) % 64;
            covered_output(out, r, end) == covered_output(out, r, start) + digits_value(
                out.subrange(pos, pos + (end - start)),
                9,
            ) * power(9, pos as nat)
        }),
{
    let pos = (start + r) % 64;
    let seg = digits_value(out.subrange(pos, pos + (end - start)), 9);
    if start < 64 - r {
        assert(pos == start + r);
        lemma_digits_value_split(out, r + 1, start + r, end + r, 9);
        lemma_power_add(9, (r + 1) as nat, (start - 1) as nat);
        let lo = digits_value(out.subrange(r + 1, start + r), 9);
        let pa = power(9, (r + 1) as nat);
        let pb = power(9, (start - 1) as nat);
        assert(pa * (lo + pb * seg) == pa * lo + seg * (pa * pb)) by (nonlinear_arith);
        assert(((r + 1) + (start - 1)) as nat == pos as nat);
    } else {
        assert(pos == start + r - 64);
        let a = power(9, (r + 1) as nat) * digits_value(out.subrange(r + 1, 64), 9);
        if start == 64 - r {
            assert(out.subrange(0, 0) =~= Seq::<u8>::empty());
            assert(digits_value(out.subrange(0, 0), 9) == 0);
            assert(out.subrange(r + 1, start + r) =~= out.subrange(r + 1, 64));
            assert(covered_output(out, r, start) == a);
        } else {
            assert(covered_output(out, r, start) == a + digits_value(out.subrange(0, pos), 9));
        }
        lemma_digits_value_split(out, 0, pos, pos + (end - start), 9);
        let pp = power(9, pos as nat);
        assert(pp * seg == seg * pp) by (nonlinear_arith);
        assert(covered_output(out, r, end) == a + digits_value(out.subrange(0, pos + (end - start)), 9));
    }
}

/// A chunk's base-9 coefficient is the value of the output digits it lands on.
proof fn lemma_chunk_output(lane: Seq<u8>, r: int, c: ChunkWitness)
    requires
        lane.len() == 65,
        digits_in_range(lane, 13),
        0 <= r < 64,
        1 <= c.chunk_idx,
        1 <= c.step <= 4,
        c.chunk_idx + c.step <= 64,
        c.chunk_idx < 64 - r ==> c.chunk_idx + c.step <= 64 - r,
        c.input_coef == digits_value(
            lane.subrange(c.chunk_idx as int, (c.chunk_idx + c.step) as int),
            13,
        ),
        c.output_coef == table_base9(c.input_coef as nat),
    ensures
        ({
            let pos = (c.chunk_idx + r) % 64;
            &&& pos + c.step <= 64
            &&& c.output_coef == digits_value(
                rho_lane_spec(lane, r).subrange(pos, pos + c.step),
                9,
            )
        }),
{
    let start = c.chunk_idx as int;
    let end = (c.chunk_idx + c.step) as int;
    let chunk = lane.subrange(start, end);
    assert(digits_in_range(chunk, 13)) by {
        assert forall|t: int| 0 <= t < chunk.len() implies #[trigger] chunk[t] < 13 by {
            assert(chunk[t] == lane[start + t]);
        }
    }
    lemma_table_chunk(chunk);
    lemma_chunk_segment(lane, r, start, c.step as int);
}

/// After the first `q` chunks the output accumulator holds the part of the
/// output value that those chunks cover.
proof fn lemma_output_prefix(lane: Seq<u8>, cs: Seq<ChunkWitness>, rotation: int, q: int)
    requires
        lane.len() == 65,
        digits_in_range(lane, 13),
        0 <= rotation < 64,
        slices_valid(Seq::new(cs.len(), |j: int| (cs[j].chunk_idx, cs[j].step)), rotation),
        forall|j: int|
            0 <= j < cs.len() ==> (#[trigger] cs[j]).input_coef == digits_value(
                lane.subrange(cs[j].chunk_idx as int, (cs[j].chunk_idx + cs[j].step) as int),
                13,
            ) && cs[j].output_coef == table_base9(cs[j].input_coef as nat),
        0 <= q <= cs.len(),
    ensures
        output_acc_sum(cs.subrange(0, q), rotation) == covered_output(
            rho_lane_spec(lane, rotation),
            rotation,
            if q == 0 {
                1
            } else {
                (cs[q - 1].chunk_idx + cs[q - 1].step) as int
            },
        ),
    decreases q,
{
    let sl = Seq::new(cs.len(), |j: int| (cs[j].chunk_idx, cs[j].step));
    let out = rho_lane_spec(lane, rotation);
    let r = rotation;
    if q == 0 {
        assert(cs.subrange(0, 0) =~= Seq::<ChunkWitness>::empty());
        if 1 <= 64 - r {
            assert(out.subrange(r + 1, 1 + r) =~= Seq::<u8>::empty());
            let p = power(9, (r + 1) as nat);
            assert(p * 0 == 0) by (nonlinear_arith);
        }
    } else {
        lemma_output_prefix(lane, cs, rotation, q - 1);
        let c = cs[q - 1];
        assert(sl[q - 1] == (c.chunk_idx, c.step));
        lemma_slice_in_lane(sl, rotation, q - 1);
        let start = c.chunk_idx as int;
        let step = c.step as int;
        let end = start + step;
        let prev_end = if q == 1 {
            1
        } else {
            (cs[q - 2].chunk_idx + cs[q - 2].step) as int
        };
        if q == 1 {
            assert(sl[0].0 == 1);
        } else {
            assert(sl[q - 1].0 == sl[q - 2].0 + sl[q - 2].1);
            assert(sl[q - 2] == (cs[q - 2].chunk_idx, cs[q - 2].step));
        }
        assert(prev_end == start);
        assert(1 <= step <= 4);
        assert(start < 64 - r ==> end <= 64 - r);
        let pre = cs.subrange(0, q);
        assert(pre.drop_last() =~= cs.subrange(0, q - 1));
        assert(pre.last() == c);
        lemma_chunk_output(lane, r, c);
        lemma_covered_step(out, r, start, end);
    }
}

proof fn lemma_output_whole(out: Seq<u8>, r: int)
    requires
        out.len() == 64,
        0 <= r < 64,
    ensures
        covered_output(out, r, 64) + out[r] * power(9, r as nat) == digits_value(out, 9),
{
    assert(out.subrange(0, 64) =~= out);
    lemma_digits_value_split(out, r, r + 1, 64, 9);
    lemma_digits_value_single(out.subrange(r, r + 1), 9);
    let sp = out[r] as int;
    let rest = digits_value(out.subrange(r + 1, 64), 9);
    let pr = power(9, r as nat);
    assert(power(9, (r + 1) as nat) == 9 * pr);
    assert(power(9, 0) == 1);
    assert(power(9, 1) == 9 * power(9, 0));
    assert(digits_value(out.subrange(r, 64), 9) == sp + 9 * rest);
    if r == 0 {
        assert(pr == 1);
        assert(out.subrange(0, 64) =~= out.subrange(r, 64));
        assert((9 * pr) * rest == 9 * rest);
        assert(sp * pr == sp);
        assert(covered_output(out, r, 64) == (9 * pr) * rest);
        assert(digits_value(out, 9) == out[0] + 9 * digits_value(out.subrange(1, 64), 9));
    } else {
        lemma_digits_value_split(out, 0, r, 64, 9);
        assert(covered_output(out, r, 64) == (9 * pr) * rest + digits_value(out.subrange(0, r), 9));
        assert(pr * (sp + 9 * rest) == (9 * pr) * rest + sp * pr) by (nonlinear_arith);
        assert(digits_value(out, 9) == digits_value(out.subrange(0, r), 9) + pr * (sp + 9 * rest));
    }
}

/// The chunks' base-9 coefficients together with the merged end digit make
/// up the whole output lane: the output accumulator ends at the output.
pub proof fn lemma_output_accumulator(lane: Seq<u8>, cs: Seq<ChunkWitness>, rotation: int)
    requires
        lane.len() == 65,
        digits_in_range(lane, 13),
        0 <= rotation < 64,
        slices_valid(Seq::new(cs.len(), |j: int| (cs[j].chunk_idx, cs[j].step)), rotation),
        forall|j: int|
            0 <= j < cs.len() ==> (#[trigger] cs[j]).input_coef == digits_value(
                lane.subrange(cs[j].chunk_idx as int, (cs[j].chunk_idx + cs[j].step) as int),
                13,
            ) && cs[j].output_coef == table_base9(cs[j].input_coef as nat),
    ensures
        output_acc_sum(cs, rotation) + ((lane[0] + lane[64]) % 2) * power(9, rotation as nat)
            == digits_value(rho_lane_spec(lane, rotation), 9),
{
    let sl = Seq::new(cs.len(), |j: int| (cs[j].chunk_idx, cs[j].step));
    let out = rho_lane_spec(lane, rotation);
    lemma_output_prefix(lane, cs, rotation, cs.len() as int);
    let last = cs.len() - 1;
    assert(sl[last].0 + sl[last].1 == 64);
    assert(sl[last] == (cs[last].chunk_idx, cs[last].step));
    assert(cs.subrange(0, cs.len() as int) =~= cs);
    assert(out[rotation] == ((lane[0] + lane[64]) % 2) as u8);
    lemma_output_whole(out, rotation);
}

/// The `(start, step)` pairs of a list of chunk witnesses.
pub open spec fn chunk_slices(cs: Seq<ChunkWitness>) -> Seq<(u32, u32)> {
    Seq::new(cs.len(), |j: int| (cs[j].chunk_idx, cs[j].step))
}

/// Whether the chunks' `(start, step)` pairs form a valid slicing.
pub fn slices_ok(chunks: &Vec<ChunkWitness>, rotation: u32) -> (r: bool)
    requires
        rotation < 64,
    ensures
        r == slices_valid(chunk_slices(chunks@), rotation as int),
{
    let ghost sl = chunk_slices(chunks@);
    let n = chunks.len();
    if n == 0 {
        return false;
    }
    if chunks[0].chunk_idx != 1 {
        return false;
    }
    let mut j: usize = 0;
    while j < n
        invariant
            rotation < 64,
            n == chunks@.len(),
            n > 0,
            sl == chunk_slices(chunks@),
            sl[0].0 == 1,
            j <= n,
            forall|q: int| 0 <= q < j ==> 1 <= (#[trigger] sl[q]).1 <= 4,
            forall|q: int| 0 <= q < j ==> 1 <= (#[trigger] sl[q]).0 < 64,
            forall|q: int| 0 <= q < j ==> (#[trigger] sl[q]).1 == step_size(sl[q].0 as int, rotation as int),
            forall|q: int| 0 < q < j ==> (#[trigger] sl[q]).0 == sl[q - 1].0 + sl[q - 1].1,
            forall|q: int|
                0 <= q < j ==> ((#[trigger] sl[q]).0 < 64 - rotation ==> sl[q].0 + sl[q].1 <= 64
                    - rotation),
        decreases n - j,
    {
        let c = chunks[j];
        assert(sl[j as int] == (c.chunk_idx, c.step));
        if c.step < 1 || c.step > 4 {
            return false;
        }
        if c.chunk_idx < 1 || c.chunk_idx >= 64 {
            proof {
                if slices_valid(sl, rotation as int) {
                    lemma_slice_in_lane(sl, rotation as int, j as int);
                }
            }
            return false;
        }
        if c.step != get_step_size(c.chunk_idx, rotation) {
            return false;
        }
        if j > 0 && c.chunk_idx as u64 != chunks[j - 1].chunk_idx as u64 + chunks[j - 1].step as u64 {
            proof {
                assert(sl[j - 1] == (chunks@[j - 1].chunk_idx, chunks@[j - 1].step));
            }
            return false;
        }
        if c.chunk_idx < 64 - rotation && c.chunk_idx + c.step > 64 - rotation {
            return false;
        }
        j = j + 1;
    }
    let last = chunks[n - 1];
    assert(sl[n - 1] == (last.chunk_idx, last.step));
    last.chunk_idx as u64 + last.step as u64 == 64
}

/// What the gates of one lane's Rho region require of a witness: the
/// chunks form a valid slicing, each is a row of the base-13 to base-9
/// table, the input accumulator runs down from the lane to
/// `low + high * 13 ** 64`, the special chunk is a row of its table, and the
/// output accumulator runs up to the output lane.
pub open spec fn rho_witness_holds(
    lane: Seq<u8>,
    cs: Seq<ChunkWitness>,
    special: u8,
    output: Seq<u8>,
    rotation: int,
) -> bool {
    &&& slices_valid(chunk_slices(cs), rotation)
    &&& forall|j: int| 0 <= j < cs.len() ==> chunk_in_table(#[trigger] cs[j])
    &&& input_acc_sum(cs) + lane[0] + lane[64] * power(13, 64) == digits_value(lane, 13)
    &&& lane[0] + lane[64] < 13
    &&& special == (lane[0] + lane[64]) % 2
    &&& output_acc_sum(cs, rotation) + special * power(9, rotation as nat) == digits_value(output, 9)
}

proof fn lemma_input_acc_prefix(cs: Seq<ChunkWitness>, j: int)
    requires
        0 <= j < cs.len(),
    ensures
        input_acc_sum(cs.subrange(0, j + 1)) == input_acc_sum(cs.subrange(0, j))
            + cs[j].input_coef * power(13, cs[j].chunk_idx as nat),
        input_acc_sum(cs.subrange(0, j + 1)) <= input_acc_sum(cs),
    decreases cs.len() - j,
{
    let pre = cs.subrange(0, j + 1);
    assert(pre.drop_last() =~= cs.subrange(0, j));
    if j + 1 < cs.len() {
        lemma_input_acc_prefix(cs, j + 1);
        let t = cs[j + 1].input_coef * power(13, cs[j + 1].chunk_idx as nat);
        assert(t >= 0) by (nonlinear_arith)
            requires
                t == cs[j + 1].input_coef * power(13, cs[j + 1].chunk_idx as nat),
        ;
    } else {
        assert(pre =~= cs);
    }
}

proof fn lemma_output_acc_prefix(cs: Seq<ChunkWitness>, rotation: int, j: int)
    requires
        0 <= j < cs.len(),
    ensures
        output_acc_sum(cs.subrange(0, j + 1), rotation) == output_acc_sum(cs.subrange(0, j), rotation)
            + cs[j].output_coef * power(9, ((cs[j].chunk_idx + rotation) % 64) as nat),
        output_acc_sum(cs.subrange(0, j + 1), rotation) <= output_acc_sum(cs, rotation),
    decreases cs.len() - j,
{
    let pre = cs.subrange(0, j + 1);
    assert(pre.drop_last() =~= cs.subrange(0, j));
    if j + 1 < cs.len() {
        lemma_output_acc_prefix(cs, rotation, j + 1);
        let t = cs[j + 1].output_coef * power(9, ((cs[j + 1].chunk_idx + rotation) % 64) as nat);
        assert(t >= 0) by (nonlinear_arith)
            requires
                t == cs[j + 1].output_coef * power(
                    9,
                    ((cs[j + 1].chunk_idx + rotation) % 64) as nat,
                ),
        ;
    } else {
        assert(pre =~= cs);
    }
}

proof fn lemma_nonneg_product(a: int, b: int)
    requires
        a >= 0,
        b >= 0,
    ensures
        a * b >= 0,
{
    assert(a * b >= 0) by (nonlinear_arith)
        requires
            a >= 0,
            b >= 0,
    ;
}

/// The input accumulator's total as base-13 digits, or `None` when it
/// reaches `13 ** 65`.
fn input_acc_digits(chunks: &Vec<ChunkWitness>) -> (r: Option<Vec<u8>>)
    requires
        forall|q: int| 0 <= q < chunks@.len() ==> (#[trigger] chunks@[q]).chunk_idx < 65,
    ensures
        match r {
            Some(a) => a@.len() == 65 && digits_in_range(a@, 13) && digits_value(a@, 13)
                == input_acc_sum(chunks@),
            None => input_acc_sum(chunks@) >= power(13, 65),
        },
{
    let ghost cs = chunks@;
    let mut acc = zero_digits(65);
    proof {
        assert forall|i: int| 0 <= i < 65 implies #[trigger] acc@[i] < 13 by {}
        assert(cs.subrange(0, 0) =~= Seq::<ChunkWitness>::empty());
    }
    let mut j: usize = 0;
    while j < chunks.len()
        invariant
            j <= cs.len(),
            cs == chunks@,
            acc@.len() == 65,
            digits_in_range(acc@, 13),
            forall|q: int| 0 <= q < cs.len() ==> (#[trigger] cs[q]).chunk_idx < 65,
            digits_value(acc@, 13) == input_acc_sum(cs.subrange(0, j as int)),
        decreases cs.len() - j,
    {
        let c = chunks[j];
        proof {
            lemma_input_acc_prefix(cs, j as int);
        }
        let carry = add_at(&mut acc, c.chunk_idx as usize, c.input_coef, 13);
        if carry != 0 {
            proof {
                let p65 = power(13, 65);
                assert(carry * p65 >= p65) by (nonlinear_arith)
                    requires
                        carry >= 1,
                        p65 >= 0,
                ;
            }
            return None;
        }
        proof {
            assert(carry * power(13, 65) == 0);
        }
        j = j + 1;
    }
    proof {
        assert(cs.subrange(0, cs.len() as int) =~= cs);
    }
    Some(acc)
}

/// The output accumulator's total over the chunks as base-9 digits, or
/// `None` when it reaches `9 ** 64`.
fn output_acc_digits(chunks: &Vec<ChunkWitness>, rotation: u32) -> (r: Option<Vec<u8>>)
    requires
        rotation < 64,
    ensures
        match r {
            Some(a) => a@.len() == 64 && digits_in_range(a@, 9) && digits_value(a@, 9)
                == output_acc_sum(chunks@, rotation as int),
            None => output_acc_sum(chunks@, rotation as int) >= power(9, 64),
        },
{
    let ghost cs = chunks@;
    let mut acc = zero_digits(64);
    proof {
        assert forall|i: int| 0 <= i < 64 implies #[trigger] acc@[i] < 9 by {}
        assert(cs.subrange(0, 0) =~= Seq::<ChunkWitness>::empty());
    }
    let mut j: usize = 0;
    while j < chunks.len()
        invariant
            j <= cs.len(),
            cs == chunks@,
            rotation < 64,
            acc@.len() == 64,
            digits_in_range(acc@, 9),
            digits_value(acc@, 9) == output_acc_sum(cs.subrange(0, j as int), rotation as int),
        decreases cs.len() - j,
    {
        let c = chunks[j];
        proof {
            lemma_output_acc_prefix(cs, rotation as int, j as int);
        }
        let pos = ((c.chunk_idx as u64 + rotation as u64) % 64) as usize;
        let carry = add_at(&mut acc, pos, c.output_coef, 9);
        if carry != 0 {
            proof {
                let p64 = power(9, 64);
                assert(carry * p64 >= p64) by (nonlinear_arith)
                    requires
                        carry >= 1,
                        p64 >= 0,
                ;
            }
            return None;
        }
        proof {
            assert(carry * power(9, 64) == 0);
        }
        j = j + 1;
    }
    proof {
        assert(cs.subrange(0, cs.len() as int) =~= cs);
    }
    Some(acc)
}

impl LaneRotateConversionConfig {
    /// Checks the gates and lookups of this lane's Rho region on an
    /// arbitrary witness: the chunk rows, the special output, and the output
    /// lane, for a 65-digit base-13 input lane and a 64-digit base-9 output.
    pub fn check_witness(
        &self,
        lane: &Vec<u8>,
        chunks: &Vec<ChunkWitness>,
        special: u8,
        output: &Vec<u8>,
    ) -> (r: bool)
        requires
            self.rotation < 64,
            lane@.len() == 65,
            digits_in_range(lane@, 13),
            output@.len() == 64,
            digits_in_range(output@, 9),
        ensures
            r == rho_witness_holds(lane@, chunks@, special, output@, self.rotation as int),
    {
        let rot = self.rotation;
        let ghost cs = chunks@;
        if chunks.len() > 64 {
            proof {
                if slices_valid(chunk_slices(cs), rot as int) {
                    lemma_slices_len(chunk_slices(cs), rot as int);
                }
            }
            return false;
        }
        if !slices_ok(chunks, rot) {
            return false;
        }
        // every chunk is a row of the table
        let mut j: usize = 0;
        while j < chunks.len()
            invariant
                j <= cs.len(),
                cs == chunks@,
                forall|q: int| 0 <= q < j ==> chunk_in_table(#[trigger] cs[q]),
            decreases cs.len() - j,
        {
            let c = chunks[j];
            if c.input_coef >= 28561 {
                return false;
            }
            let (out, bc) = base13_to_base9_row(c.input_coef);
            if out != c.output_coef || bc != c.block_count {
                return false;
            }
            j = j + 1;
        }
        // the special chunk
        if lane[0] + lane[64] >= 13 {
            return false;
        }
        if special != (lane[0] + lane[64]) % 2 {
            return false;
        }
        proof {
            let sl = chunk_slices(cs);
            assert forall|q: int| 0 <= q < cs.len() implies 1 <= (#[trigger] cs[q]).chunk_idx
                && cs[q].chunk_idx + cs[q].step <= 64 by {
                assert(sl[q] == (cs[q].chunk_idx, cs[q].step));
                lemma_slice_in_lane(sl, rot as int, q);
            }
        }
        // running down the input accumulator: the chunks and the two end
        // digits, placed at their powers of 13, must give the lane
        let ghost lane_value = digits_value(lane@, 13);
        proof {
            crate::encoding::lemma_digits_value_bound(lane@, 13);
            lemma_nonneg_product(lane@[64] as int, power(13, 64) as int);
        }
        let mut acc = match input_acc_digits(chunks) {
            Some(a) => a,
            None => {
                return false;
            },
        };
        let c0 = add_at(&mut acc, 0, lane[0] as u32, 13);
        proof {
            crate::encoding::lemma_power_positive(13, 0);
            assert(power(13, 0) == 1);
        }
        if c0 != 0 {
            proof {
                let p65 = power(13, 65);
                assert(c0 * p65 >= p65) by (nonlinear_arith)
                    requires
                        c0 >= 1,
                        p65 >= 0,
                ;
                lemma_nonneg_product(lane@[64] as int, power(13, 64) as int);
            }
            return false;
        }
        proof {
            assert(c0 * power(13, 65) == 0);
        }
        let c64 = add_at(&mut acc, 64, lane[64] as u32, 13);
        if c64 != 0 {
            proof {
                let p65 = power(13, 65);
                assert(c64 * p65 >= p65) by (nonlinear_arith)
                    requires
                        c64 >= 1,
                        p65 >= 0,
                ;
            }
            return false;
        }
        proof {
            assert(c64 * power(13, 65) == 0);
        }
        let input_ok = digits_equal(&acc, lane);
        proof {
            if !input_ok && digits_value(acc@, 13) == lane_value {
                crate::encoding::lemma_digits_unique(acc@, lane@, 13);
            }
        }
        if !input_ok {
            return false;
        }
        // running up the output accumulator: the chunks' base-9 coefficients
        // at their output positions and the special output at the rotation
        // must give the output lane
        proof {
            crate::encoding::lemma_digits_value_bound(output@, 9);
        }
        proof {
            lemma_nonneg_product(special as int, power(9, rot as nat) as int);
        }
        let mut acc9 = match output_acc_digits(chunks, rot) {
            Some(a) => a,
            None => {
                return false;
            },
        };
        let cs9 = add_at(&mut acc9, rot as usize, special as u32, 9);
        if cs9 != 0 {
            proof {
                let p64 = power(9, 64);
                assert(cs9 * p64 >= p64) by (nonlinear_arith)
                    requires
                        cs9 >= 1,
                        p64 >= 0,
                ;
            }
            return false;
        }
        proof {
            assert(cs9 * power(9, 64) == 0);
        }
        let output_ok = digits_equal(&acc9, output);
        proof {
            if !output_ok && digits_value(acc9@, 9) == digits_value(output@, 9) {
                crate::encoding::lemma_digits_unique(acc9@, output@, 9);
            }
        }
        output_ok
    }
}

/// Number of chunks of step `st` in the slicing from input digit `idx`.
pub open spec fn slice_step_count(idx: int, rotation: int, st: int) -> int
    decreases 64 - idx,
{
    if idx >= 64 || idx < 1 || rotation < 0 || rotation >= 64 {
        0
    } else {
        (if step_size(idx, rotation) == st {
            1int
        } else {
            0
        }) + slice_step_count(idx + step_size(idx, rotation), rotation, st)
    }
}

proof fn lemma_step_count_append(a: Seq<ChunkWitness>, b: Seq<ChunkWitness>, st: u32)
    ensures
        step_count(a + b, st) == step_count(a, st) + step_count(b, st),
    decreases b.len(),
{
    if b.len() == 0 {
        assert(a + b =~= a);
    } else {
        lemma_step_count_append(a, b.drop_last(), st);
        assert((a + b).drop_last() =~= a + b.drop_last());
        assert((a + b).last() == b.last());
    }
}

proof fn lemma_lane_step_count(lane: Seq<u8>, idx: int, rotation: int, st: u32)
    requires
        0 <= rotation < 64,
    ensures
        step_count(chunks_of(lane, slicing_from(idx, rotation)), st) == slice_step_count(
            idx,
            rotation,
            st as int,
        ),
    decreases 64 - idx,
{
    if idx >= 64 || idx < 1 {
        assert(chunks_of(lane, slicing_from(idx, rotation)) =~= Seq::<ChunkWitness>::empty());
    } else {
        let step = step_size(idx, rotation);
        let head = seq![(idx as u32, step as u32)];
        let rest = slicing_from(idx + step, rotation);
        assert(1 <= step <= 4);
        assert(slicing_from(idx, rotation) == head + rest);
        lemma_lane_step_count(lane, idx + step, rotation, st);
        assert(chunks_of(lane, head + rest) =~= chunks_of(lane, head) + chunks_of(lane, rest));
        lemma_step_count_append(chunks_of(lane, head), chunks_of(lane, rest), st);
        let hm = chunks_of(lane, head);
        assert(hm.len() == 1);
        assert(hm.drop_last() =~= Seq::<ChunkWitness>::empty());
        assert(step_count(Seq::<ChunkWitness>::empty(), st) == 0);
        assert(hm.last() == chunk_witness_spec(lane, head[0]));
        assert(hm.last().step == step as u32);
        assert(step_count(hm, st) == (if step == st as int { 1int } else { 0 }));
        assert(slice_step_count(idx, rotation, st as int) == (if step == st as int {
            1int
        } else {
            0
        }) + slice_step_count(idx + step, rotation, st as int));
    }
}

/// The slicing from `idx` ends the segment before the wrap-around point
/// with one short chunk of its length mod 4 (if that is not 0), and the
/// segment after it likewise.
proof fn lemma_slice_count_closed(idx: int, rotation: int, st: int)
    requires
        0 <= rotation < 64,
        1 <= idx <= 64,
        1 <= st <= 3,
    ensures
        slice_step_count(idx, rotation, st) == if idx < 64 - rotation {
            (if (64 - rotation - idx) % 4 == st { 1int } else { 0 }) + (if rotation % 4 == st {
                1int
            } else {
                0
            })
        } else {
            if (64 - idx) % 4 == st { 1int } else { 0 }
        },
    decreases 64 - idx,
{
    if idx < 64 {
        let step = step_size(idx, rotation);
        lemma_slice_count_closed(idx + step, rotation, st);
    }
}

/// Number of chunks of step `st` in the slicing of a lane rotated by `r`.
pub open spec fn lane_step_count(r: int, st: int) -> int {
    if r == 0 {
        if st == 3 { 1 } else { 0 }
    } else {
        (if (63 - r) % 4 == st { 1int } else { 0 }) + (if r % 4 == st { 1int } else { 0 })
    }
}

/// Total number of chunks of step `st` over the first `n` lanes.
pub open spec fn total_step_count(n: nat, st: int) -> int
    decreases n,
{
    if n == 0 {
        0
    } else {
        total_step_count((n - 1) as nat, st) + lane_step_count(rotation_offset(n - 1) as int, st)
    }
}

proof fn lemma_state_step_count(s: Seq<Seq<u8>>, n: nat, st: u32)
    requires
        n <= 25,
        1 <= st <= 3,
    ensures
        step_count(state_chunks_spec(s, n), st) == total_step_count(n, st as int),
    decreases n,
{
    if n > 0 {
        lemma_state_step_count(s, (n - 1) as nat, st);
        let r = rotation_offset(n - 1) as int;
        assert(0 <= r < 64) by {
            assert(rotation_offset(n - 1) < 64);
        }
        lemma_step_count_append(
            state_chunks_spec(s, (n - 1) as nat),
            lane_chunks_spec(s[n - 1], r),
            st,
        );
        lemma_lane_step_count(s[n - 1], 1, r, st);
        if 1 <= st <= 3 {
            lemma_slice_count_closed(1, r, st as int);
        }
    }
}

/// Over the slicings of the 25 lanes there are 12 chunks of step 2 and 13
/// of step 3.
proof fn lemma_total_step_counts()
    ensures
        total_step_count(25, 2) == 12,
        total_step_count(25, 3) == 13,
{
    reveal_with_fuel(total_step_count, 26);
}

/// Honest chunk witnesses of all 25 lanes of a state pass the final
/// block-count check: the slicings give 12 chunks of step 2 and 13 of
/// step 3, and honest chunks stay within their steps.
pub proof fn lemma_state_chunks_accepted(s: Seq<Seq<u8>>)
    requires
        forall|j: int|
            0 <= j < state_chunks_spec(s, 25).len() ==> chunk_in_table(
                #[trigger] state_chunks_spec(s, 25)[j],
            ) && !chunk_overflows(state_chunks_spec(s, 25)[j]),
    ensures
        block_counts_accepted(state_chunks_spec(s, 25)),
{
    lemma_state_step_count(s, 25, 2);
    lemma_state_step_count(s, 25, 3);
    lemma_total_step_counts();
    lemma_honest_accepted(state_chunks_spec(s, 25));
}

} // verus!
