//! Keccak-f[1600] on 64-bit lanes, computed directly with bitwise
//! operations. The arithmetized steps are proved against these functions.
use vstd::prelude::*;
use crate::encoding::bit;
use crate::common::{rotation_constant, rotation_offset, round_constant, round_constant_spec};

verus! {

/// `v` rotated left by `r` bits.
pub open spec fn rotl(v: u64, r: u32) -> u64 {
    if r == 0 {
        v
    } else {
        (v << (r as u64)) | (v >> ((64 - r) as u64))
    }
}

/// Parity of column `x`: the XOR of its five lanes.
pub open spec fn column_parity(a: Seq<u64>, x: int) -> u64 {
    a[5 * x] ^ a[5 * x + 1] ^ a[5 * x + 2] ^ a[5 * x + 3] ^ a[5 * x + 4]
}

pub open spec fn theta_spec(a: Seq<u64>) -> Seq<u64> {
    Seq::new(
        25,
        |k: int|
            a[k] ^ (column_parity(a, (k / 5 + 4) % 5) ^ rotl(column_parity(a, (k / 5 + 1) % 5), 1)),
    )
}

pub open spec fn rho_spec(a: Seq<u64>) -> Seq<u64> {
    Seq::new(25, |k: int| rotl(a[k], rotation_offset(k)))
}

/// Index of the lane that Pi moves to index `k = 5 * x + y`.
pub open spec fn pi_source(k: int) -> int {
    5 * ((k / 5 + 3 * (k % 5)) % 5) + k / 5
}

pub open spec fn pi_spec(a: Seq<u64>) -> Seq<u64> {
    Seq::new(25, |k: int| a[pi_source(k)])
}

pub open spec fn chi_spec(a: Seq<u64>) -> Seq<u64> {
    Seq::new(
        25,
        |k: int| a[k] ^ (!a[5 * ((k / 5 + 1) % 5) + k % 5] & a[5 * ((k / 5 + 2) % 5) + k % 5]),
    )
}

pub open spec fn iota_spec(a: Seq<u64>, rc: u64) -> Seq<u64> {
    a.update(0, a[0] ^ rc)
}

pub open spec fn round_spec(a: Seq<u64>, i: int) -> Seq<u64> {
    iota_spec(chi_spec(pi_spec(rho_spec(theta_spec(a)))), round_constant_spec(i))
}

/// The first `n` rounds of the permutation.
pub open spec fn rounds_spec(a: Seq<u64>, n: nat) -> Seq<u64>
    decreases n,
{
    if n == 0 {
        a
    } else {
        round_spec(rounds_spec(a, (n - 1) as nat), n - 1)
    }
}

/// Keccak-f[1600].
pub open spec fn keccak_f_spec(a: Seq<u64>) -> Seq<u64> {
    rounds_spec(a, 24)
}

/// `v` rotated left by `r` bits.
pub fn rotate_lane(v: u64, r: u32) -> (out: u64)
    requires
        r < 64,
    ensures
        out == rotl(v, r),
{
    if r == 0 {
        v
    } else {
        (v << (r as u64)) | (v >> ((64 - r) as u64))
    }
}

fn column_parities(a: &Vec<u64>) -> (c: Vec<u64>)
    requires
        a@.len() == 25,
    ensures
        c@.len() == 5,
        forall|x: int| 0 <= x < 5 ==> c@[x] == column_parity(a@, x),
{
    let mut c: Vec<u64> = Vec::new();
    let mut x: usize = 0;
    while x < 5
        invariant
            x <= 5,
            a@.len() == 25,
            c@.len() == x,
            forall|j: int| 0 <= j < x ==> c@[j] == column_parity(a@, j),
        decreases 5 - x,
    {
        c.push(a[5 * x] ^ a[5 * x + 1] ^ a[5 * x + 2] ^ a[5 * x + 3] ^ a[5 * x + 4]);
        x = x + 1;
    }
    c
}

/// Theta: each lane takes the XOR of the parities of its two neighbouring
/// columns, the right one rotated by one bit.
pub fn theta(a: &Vec<u64>) -> (r: Vec<u64>)
    requires
        a@.len() == 25,
    ensures
        r@ == theta_spec(a@),
{
    let c = column_parities(a);
    let mut r: Vec<u64> = Vec::new();
    let mut k: usize = 0;
    while k < 25
        invariant
            k <= 25,
            a@.len() == 25,
            c@.len() == 5,
            forall|x: int| 0 <= x < 5 ==> c@[x] == column_parity(a@, x),
            r@.len() == k,
            forall|j: int| 0 <= j < k ==> r@[j] == theta_spec(a@)[j],
        decreases 25 - k,
    {
        let x = k / 5;
        let d = c[(x + 4) % 5] ^ rotate_lane(c[(x + 1) % 5], 1);
        r.push(a[k] ^ d);
        k = k + 1;
    }
    proof {
        assert(r@ =~= theta_spec(a@));
    }
    r
}

/// Rho: each lane is rotated by its fixed offset.
pub fn rho(a: &Vec<u64>) -> (r: Vec<u64>)
    requires
        a@.len() == 25,
    ensures
        r@ == rho_spec(a@),
{
    let mut r: Vec<u64> = Vec::new();
    let mut k: usize = 0;
    while k < 25
        invariant
            k <= 25,
            a@.len() == 25,
            r@.len() == k,
            forall|j: int| 0 <= j < k ==> r@[j] == rho_spec(a@)[j],
        decreases 25 - k,
    {
        r.push(rotate_lane(a[k], rotation_constant(k)));
        k = k + 1;
    }
    proof {
        assert(r@ =~= rho_spec(a@));
    }
    r
}

/// Pi: lane `(x, y)` takes the lane at `((x + 3y) mod 5, x)`.
pub fn pi(a: &Vec<u64>) -> (r: Vec<u64>)
    requires
        a@.len() == 25,
    ensures
        r@ == pi_spec(a@),
{
    let mut r: Vec<u64> = Vec::new();
    let mut k: usize = 0;
    while k < 25
        invariant
            k <= 25,
            a@.len() == 25,
            r@.len() == k,
            forall|j: int| 0 <= j < k ==> r@[j] == pi_spec(a@)[j],
        decreases 25 - k,
    {
        r.push(a[5 * ((k / 5 + 3 * (k % 5)) % 5) + k / 5]);
        k = k + 1;
    }
    proof {
        assert(r@ =~= pi_spec(a@));
    }
    r
}

/// Chi: the one nonlinear step, `a ^ (!b & c)` along each row.
pub fn chi(a: &Vec<u64>) -> (r: Vec<u64>)
    requires
        a@.len() == 25,
    ensures
        r@ == chi_spec(a@),
{
    let mut r: Vec<u64> = Vec::new();
    let mut k: usize = 0;
    while k < 25
        invariant
            k <= 25,
            a@.len() == 25,
            r@.len() == k,
            forall|j: int| 0 <= j < k ==> r@[j] == chi_spec(a@)[j],
        decreases 25 - k,
    {
        let b = a[5 * ((k / 5 + 1) % 5) + k % 5];
        let c = a[5 * ((k / 5 + 2) % 5) + k % 5];
        r.push(a[k] ^ (!b & c));
        k = k + 1;
    }
    proof {
        assert(r@ =~= chi_spec(a@));
    }
    r
}

/// One round of Keccak-f with the constant of round `i`.
pub fn keccak_round(a: &Vec<u64>, i: usize) -> (r: Vec<u64>)
    requires
        a@.len() == 25,
        i < 24,
    ensures
        r@ == round_spec(a@, i as int),
        r@.len() == 25,
{
    let t = theta(a);
    let t = rho(&t);
    let t = pi(&t);
    let mut t = chi(&t);
    let l0 = t[0] ^ round_constant(i);
    t.set(0, l0);
    proof {
        assert(t@ =~= round_spec(a@, i as int));
    }
    t
}

/// The Keccak-f[1600] permutation: 24 rounds.
pub fn keccak_f(a: &Vec<u64>) -> (r: Vec<u64>)
    requires
        a@.len() == 25,
    ensures
        r@ == keccak_f_spec(a@),
        r@.len() == 25,
{
    let mut s = a.clone();
    let mut i: usize = 0;
    proof {
        assert(s@ == rounds_spec(a@, 0));
    }
    while i < 24
        invariant
            i <= 24,
            s@.len() == 25,
            a@.len() == 25,
            s@ == rounds_spec(a@, i as nat),
        decreases 24 - i,
    {
        s = keccak_round(&s, i);
        i = i + 1;
    }
    s
}

/// Bit `i` of `v` rotated left by `r` is bit `i - r` (mod 64) of `v`.
pub proof fn lemma_bit_rotl(v: u64, r: u32, i: int)
    requires
        r < 64,
        0 <= i < 64,
    ensures
        bit(rotl(v, r), i) == bit(v, (i + 64 - r) % 64),
{
    if r > 0 {
        let k = i as u64;
        let rr = r as u64;
        let j = ((i + 64 - r) % 64) as u64;
        assert(j == (k + 64 - rr) % 64);
        assert(((((v << rr) | (v >> ((64 - rr) as u64))) >> k) & 1u64) == ((v >> (((k + 64 - rr)
            % 64) as u64)) & 1u64)) by (bit_vector)
            requires
                0 < rr < 64,
                k < 64,
        ;
    } else {
        assert((i + 64) % 64 == i);
    }
}

} // verus!
