use vstd::prelude::*;

verus! {

/// Number of binary places behind the point in the logarithms.
pub const FRACTION_BITS: u32 = 16;

/// The fixed-point number one.
pub const FIXED_ONE: u64 = 65536;

/// Two to the power `e`.
pub open spec fn two_to(e: nat) -> nat
    decreases e,
{
    if e == 0 {
        1
    } else {
        2 * two_to((e - 1) as nat)
    }
}

/// The whole part of the binary logarithm of `x`; nothing for `x` below two.
pub open spec fn floor_log2(x: nat) -> nat
    decreases x,
{
    if x <= 1 {
        0
    } else {
        1 + floor_log2(x / 2)
    }
}

/// The binary logarithm of `x` in fixed point, sixteen binary places behind
/// the point: the whole part is exact, and between two powers of two the
/// logarithm is taken to grow evenly. Nothing for `x` zero.
pub open spec fn log2_fixed(x: nat) -> nat {
    if x == 0 {
        0
    } else {
        let e = floor_log2(x);
        (e * 65536 + ((x - two_to(e)) * 65536) / (two_to(e) as int)) as nat
    }
}

/// What a variant of weight `w` adds to the sum of the weights times their
/// logarithms.
pub open spec fn weight_log(w: nat) -> nat {
    w * log2_fixed(w)
}

/// The measure by which cells are ordered: the logarithm of the sum of the
/// weights, less the mean of the logarithms of the weights, in fixed point
/// and never below zero. It grows and falls with the entropy of the
/// weights. Nothing where the sum is zero.
pub open spec fn entropy_proxy(weight_sum: nat, weight_log_sum: nat) -> nat {
    if weight_sum == 0 {
        0
    } else {
        let whole = log2_fixed(weight_sum);
        let mean = weight_log_sum / weight_sum;
        if mean >= whole {
            0
        } else {
            (whole - mean) as nat
        }
    }
}

/// A number between a power of two and the next has that power's exponent
/// as the whole part of its logarithm.
pub proof fn lemma_floor_log2(x: nat, e: nat)
    requires
        two_to(e) <= x < 2 * two_to(e),
    ensures
        floor_log2(x) == e,
    decreases e,
{
    if e > 0 {
        lemma_floor_log2(x / 2, (e - 1) as nat);
    }
}

/// The binary logarithm of `x` in fixed point.
pub fn fixed_log2(x: u64) -> (log: u64)
    ensures
        log == log2_fixed(x as nat),
        log < 64 * 65536,
{
    if x == 0 {
        return 0;
    }
    let mut e: u64 = 0;
    let mut p: u64 = 1;
    proof {
        reveal_with_fuel(two_to, 64);
        assert(two_to(63) == 0x8000_0000_0000_0000);
    }
    while x / 2 >= p
        invariant
            p == two_to(e as nat),
            0 < p <= x,
            e < 64,
            p * two_to((63 - e) as nat) == 0x8000_0000_0000_0000,
        decreases x - p,
    {
        proof {
            assert(two_to((63 - e) as nat) == 2 * two_to((62 - e) as nat)) by {
                if e >= 63 {
                    assert(p * 1 == 0x8000_0000_0000_0000);
                }
            }
            assert(p * (2 * two_to((62 - e) as nat)) == (2 * p) * two_to((62 - e) as nat))
                by (nonlinear_arith);
        }
        p = p * 2;
        e = e + 1;
    }
    proof {
        lemma_floor_log2(x as nat, e as nat);
    }
    let part: u128 = ((x - p) as u128 * 65536) / (p as u128);
    assert(part < 65536) by (nonlinear_arith)
        requires
            part == ((x - p) * 65536) / (p as int),
            0 <= x - p < p,
    ;
    e * 65536 + part as u64
}

/// What a variant of weight `w` adds to the sum of the weights times their
/// logarithms.
pub fn weight_log_of(w: u32) -> (term: u128)
    ensures
        term == weight_log(w as nat),
        term <= 0xFFFF_FFFF * (64 * 65536),
{
    let log = fixed_log2(w as u64);
    assert(w * log <= 0xFFFF_FFFF * (64 * 65536)) by (nonlinear_arith)
        requires
            0 <= w <= 0xFFFF_FFFF,
            0 <= log < 64 * 65536,
    ;
    (w as u128) * (log as u128)
}

/// The measure by which cells are ordered, from the two sums of a cell.
pub fn entropy_of(weight_sum: u64, weight_log_sum: u128) -> (entropy: u64)
    ensures
        entropy == entropy_proxy(weight_sum as nat, weight_log_sum as nat),
        entropy < 64 * 65536,
{
    if weight_sum == 0 {
        return 0;
    }
    let whole = fixed_log2(weight_sum);
    let mean = weight_log_sum / (weight_sum as u128);
    if mean >= whole as u128 {
        0
    } else {
        whole - mean as u64
    }
}

} // verus!
