//! Turning a similarity, read from its IEEE-754 bit pattern, into a match
//! score: accepted from three quarters up to one, and worth what
//! `(similarity * 1000.0) as i64` gives, that is the float product rounded
//! to nearest (ties to even) and then truncated.

use vstd::prelude::*;
use vstd::arithmetic::power2::{pow2, lemma2_to64, lemma2_to64_rest};

verus! {

/// 2 to the 52: the weight of the lowest exponent bit.
pub const FRACTION_SPAN: u64 = 0x10_0000_0000_0000;

/// The bit pattern of 0.75, the lowest similarity that is accepted.
pub const THRESHOLD_BITS: u64 = 0x3FE8_0000_0000_0000;

/// The bit pattern of 1.0, the highest similarity there is.
pub const ONE_BITS: u64 = 0x3FF0_0000_0000_0000;

/// 2 to the 62.
pub const TOP_BIT_62: u64 = 0x4000_0000_0000_0000;

pub open spec fn bits_exponent(b: u64) -> int {
    (b as int / FRACTION_SPAN as int) % 2048
}

pub open spec fn bits_fraction(b: u64) -> int {
    b as int % FRACTION_SPAN as int
}

/// The 53-bit significand of a normal float, implicit bit included.
pub open spec fn significand(b: u64) -> int {
    bits_fraction(b) + FRACTION_SPAN as int
}

/// `p` rounded to 53 significant bits, ties to even. A 53-bit significand
/// times 1000 has 62 or 63 bits, so 9 or 10 low bits are rounded away.
pub open spec fn round_product(p: int) -> int {
    let d: int = if p < TOP_BIT_62 as int {
        512
    } else {
        1024
    };
    let q = p / d;
    let r = p % d;
    if r > d / 2 || (r == d / 2 && q % 2 == 1) {
        (q + 1) * d
    } else {
        q * d
    }
}

/// A thousand times the normal float `b` in floating point, truncated.
pub open spec fn thousandfold(b: u64) -> int {
    round_product(significand(b) * 1000) / (pow2((1075 - bits_exponent(b)) as nat) as int)
}

/// The match score of a similarity: none outside 0.75 ..= 1.0, else a
/// thousand times its value, as float arithmetic gives it.
pub open spec fn similarity_points(b: u64) -> Option<int> {
    if THRESHOLD_BITS <= b <= ONE_BITS {
        Some(thousandfold(b))
    } else {
        None
    }
}

/// An accepted similarity scores from 750 to 1000.
pub proof fn lemma_thousandfold_range(b: u64)
    requires
        THRESHOLD_BITS <= b <= ONE_BITS,
    ensures
        750 <= thousandfold(b) <= 1000,
        bits_exponent(b) == 1022 || bits_exponent(b) == 1023,
{
    lemma2_to64();
    lemma2_to64_rest();
    let x = b as int / FRACTION_SPAN as int;
    assert(1022 <= x <= 1023) by (nonlinear_arith)
        requires
            x == b as int / 0x10_0000_0000_0000int,
            0x3FE8_0000_0000_0000int <= b <= 0x3FF0_0000_0000_0000int,
    ;
    assert(bits_exponent(b) == x);
    let m = significand(b);
    let p = m * 1000;
    if x == 1023 {
        assert(bits_fraction(b) == 0) by (nonlinear_arith)
            requires
                x == b as int / 0x10_0000_0000_0000int,
                x == 1023,
                b <= 0x3FF0_0000_0000_0000int,
                bits_fraction(b) == b as int % 0x10_0000_0000_0000int,
        ;
        assert(p == 0x10_0000_0000_0000int * 1000);
        assert(round_product(p) == p);
        assert(pow2(52) == 0x10_0000_0000_0000int);
        assert((0x10_0000_0000_0000int * 1000) / 0x10_0000_0000_0000int == 1000);
    } else {
        assert(bits_fraction(b) >= 0x8_0000_0000_0000int) by (nonlinear_arith)
            requires
                x == b as int / 0x10_0000_0000_0000int,
                x == 1022,
                b >= 0x3FE8_0000_0000_0000int,
                bits_fraction(b) == b as int % 0x10_0000_0000_0000int,
        ;
        assert(0 <= bits_fraction(b) < 0x10_0000_0000_0000int);
        assert(p >= 0x4000_0000_0000_0000int);
        let q = p / 1024;
        assert(q >= 375 * 0x1000_0000_0000int);
        assert(q < 125 * 0x4000_0000_0000int);
        let r = round_product(p);
        assert(q * 1024 <= r <= (q + 1) * 1024);
        assert(750 * 0x20_0000_0000_0000int <= r <= 1000 * 0x20_0000_0000_0000int);
        assert(pow2(53) == 0x20_0000_0000_0000int);
        assert(750 <= r / 0x20_0000_0000_0000int <= 1000) by (nonlinear_arith)
            requires
                750 * 0x20_0000_0000_0000int <= r <= 1000 * 0x20_0000_0000_0000int,
        ;
    }
}

/// The match score of the similarity whose bit pattern is `bits`.
pub fn similarity_score(bits: u64) -> (r: Option<i128>)
    ensures
        r == (match similarity_points(bits) {
            Some(v) => Some(v as i128),
            None => None,
        }),
        r matches Some(v) ==> 750 <= v <= 1000,
{
    if bits < THRESHOLD_BITS || bits > ONE_BITS {
        return None;
    }
    proof {
        lemma_thousandfold_range(bits);
        lemma2_to64();
        lemma2_to64_rest();
    }
    let exponent: u64 = (bits / FRACTION_SPAN) % 2048;
    let m: u64 = bits % FRACTION_SPAN + FRACTION_SPAN;
    let p: u64 = m * 1000;
    let d: u64 = if p < TOP_BIT_62 {
        512
    } else {
        1024
    };
    let q: u64 = p / d;
    let rem: u64 = p % d;
    let rounded: u64 = if rem > d / 2 || (rem == d / 2 && q % 2 == 1) {
        (q + 1) * d
    } else {
        q * d
    };
    assert(rounded as int == round_product(p as int));
    assert(exponent as int == bits_exponent(bits));
    assert(p as int == significand(bits) * 1000);
    let v: u64 = if exponent == 1023 {
        rounded / FRACTION_SPAN
    } else {
        rounded / 0x20_0000_0000_0000
    };
    Some(v as i128)
}

} // verus!
