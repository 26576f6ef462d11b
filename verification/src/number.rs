//! What JSON numbers are worth, and which of two is less. Every number is a multiple of the least
//! positive double, so its worth is a whole number of those.

use crate::json::JsonNumber;
use vstd::arithmetic::power2::{lemma2_to64, lemma2_to64_rest, lemma_pow2_adds, lemma_pow2_pos, lemma_pow2_unfold, pow2};
use vstd::prelude::*;

verus! {

/// One, in units of the least positive double.
pub open spec fn one() -> nat {
    pow2(1074)
}

/// The worth of a double without its sign, from its bit pattern: 52 bits of fraction under the
/// exponent.
pub open spec fn magnitude(bits: u64) -> nat {
    let exponent = bits as nat / 0x10_0000_0000_0000;
    let fraction = bits as nat % 0x10_0000_0000_0000;
    if exponent == 0 { fraction } else { (0x10_0000_0000_0000 + fraction) * pow2((exponent - 1) as nat) }
}

impl JsonNumber {
    /// The exact value, in units of the least positive double.
    pub open spec fn worth(self) -> int {
        match self {
            JsonNumber::PosInt(n) => n * one(),
            JsonNumber::NegInt(n) => n * one(),
            JsonNumber::Double(bits) => if bits < 0x8000_0000_0000_0000 {
                magnitude(bits) as int
            } else {
                -magnitude((bits - 0x8000_0000_0000_0000) as u64)
            },
        }
    }
}

/// A number without its sign.
enum Size {
    Whole(u64),
    /// A double, by its bit pattern.
    Double(u64),
}

impl Size {
    spec fn worth(self) -> nat {
        match self {
            Size::Whole(n) => (n * one()) as nat,
            Size::Double(bits) => magnitude(bits),
        }
    }
}

proof fn lemma_pow2_monotone(a: nat, b: nat)
    requires
        a <= b,
    ensures
        pow2(a) <= pow2(b),
    decreases b - a,
{
    if a < b {
        lemma_pow2_monotone(a, (b - 1) as nat);
        lemma_pow2_unfold(b);
        lemma_pow2_pos((b - 1) as nat);
    }
}

/// Of two doubles without a sign, the one with the lower bit pattern is less.
proof fn lemma_magnitude_rises(a: u64, b: u64)
    requires
        a < b,
    ensures
        magnitude(a) < magnitude(b),
{
    let c = 0x10_0000_0000_0000nat;
    let (ea, eb) = (a as nat / c, b as nat / c);
    let (fa, fb) = (a as nat % c, b as nat % c);
    if eb > 0 {
        let pb = pow2((eb - 1) as nat);
        lemma_pow2_pos((eb - 1) as nat);
        if ea == eb {
            assert((c + fa) * pb < (c + fb) * pb) by (nonlinear_arith)
                requires
                    fa < fb,
                    pb > 0,
            ;
        } else {
            assert((c + fb) * pb >= c * pb) by (nonlinear_arith)
                requires
                    pb > 0,
            ;
            if ea > 0 {
                let pa = pow2((ea - 1) as nat);
                lemma_pow2_unfold(ea);
                lemma_pow2_monotone(ea, (eb - 1) as nat);
                assert((c + fa) * pa < c * pb) by (nonlinear_arith)
                    requires
                        fa < c,
                        2 * pa <= pb,
                        pb > 0,
                        c > 0,
                ;
            } else {
                assert(c * pb >= c) by (nonlinear_arith)
                    requires
                        pb > 0,
                ;
            }
        }
    }
}

/// A double below one, one of 64 bits and more, and one between.
proof fn lemma_double_places(bits: u64)
    ensures
        ({
            let e = bits as nat / 0x10_0000_0000_0000;
            let m = 0x10_0000_0000_0000 + bits as nat % 0x10_0000_0000_0000;
            &&& e < 1023 ==> magnitude(bits) < one()
            &&& e >= 1087 ==> magnitude(bits) >= 0x1_0000_0000_0000_0000 * one()
            &&& 1023 <= e < 1087 ==> {
                &&& magnitude(bits) == (m * pow2((e - 1023) as nat)) * pow2(1022)
                &&& one() == 0x10_0000_0000_0000 * pow2(1022)
            }
        }),
        one() > 0,
        bits > 0 ==> magnitude(bits) > 0,
        bits == 0 ==> magnitude(bits) == 0,
{
    let c = 0x10_0000_0000_0000nat;
    let e = bits as nat / c;
    let m = c + bits as nat % c;
    lemma2_to64();
    lemma2_to64_rest();
    lemma_pow2_pos(1074);
    lemma_pow2_adds(52, 1022);
    if bits > 0 {
        lemma_magnitude_rises(0, bits);
    }
    if e == 0 {
        lemma_pow2_monotone(52, 1074);
    } else {
        let p = pow2((e - 1) as nat);
        lemma_pow2_pos((e - 1) as nat);
        if e < 1023 {
            lemma_pow2_adds(53, (e - 1) as nat);
            lemma_pow2_monotone(53 + (e - 1) as nat, 1074);
            assert(m * p < 0x20_0000_0000_0000 * p) by (nonlinear_arith)
                requires
                    m < 0x20_0000_0000_0000,
                    p > 0,
            ;
        } else if e >= 1087 {
            lemma_pow2_adds(52, (e - 1) as nat);
            lemma_pow2_adds(64, 1074);
            lemma_pow2_monotone(1138, 52 + (e - 1) as nat);
            assert(m * p >= c * p) by (nonlinear_arith)
                requires
                    m >= c,
            ;
        } else {
            let k = (e - 1023) as nat;
            lemma_pow2_adds(k, 1022);
            let (q, s) = (pow2(k), pow2(1022));
            assert(m * (q * s) == (m * q) * s) by (nonlinear_arith);
        }
    }
}

fn shifted(k: u64) -> (r: u64)
    requires
        k <= 63,
    ensures
        r == pow2(k as nat),
{
    let mut p: u64 = 1;
    let mut i: u64 = 0;
    proof {
        lemma2_to64();
        lemma2_to64_rest();
    }
    while i < k
        invariant
            i <= k <= 63,
            p == pow2(i as nat),
        decreases k - i,
    {
        proof {
            lemma_pow2_unfold((i + 1) as nat);
            lemma_pow2_monotone((i + 1) as nat, 63);
            lemma2_to64_rest();
        }
        p = p * 2;
        i += 1;
    }
    p
}

/// The two sides of a comparison between a whole number and a double of at least one and under 64
/// bits, on a common scale.
fn scaled(n: u64, bits: u64) -> (r: (u128, u128))
    requires
        1023 <= bits as nat / 0x10_0000_0000_0000 < 1087,
    ensures
        r.0 < r.1 <==> n * one() < magnitude(bits),
        r.1 < r.0 <==> magnitude(bits) < n * one(),
{
    let k: u64 = bits / 0x10_0000_0000_0000 - 1023;
    let m: u64 = 0x10_0000_0000_0000 + bits % 0x10_0000_0000_0000;
    let p: u64 = shifted(k);
    proof {
        lemma_double_places(bits);
        assert(m as int * p as int <= 0x20_0000_0000_0000 * 0x1_0000_0000_0000_0000) by (nonlinear_arith)
            requires
                m <= 0x20_0000_0000_0000,
                p <= 0x1_0000_0000_0000_0000,
        ;
    }
    let a: u128 = n as u128 * 0x10_0000_0000_0000;
    let b: u128 = m as u128 * p as u128;
    proof {
        let s = pow2(1022) as int;
        lemma_pow2_pos(1022);
        let (x, y) = (a as int, b as int);
        assert(n as int * (0x10_0000_0000_0000 * s) == (n as int * 0x10_0000_0000_0000) * s) by (nonlinear_arith);
        assert(x < y <==> x * s < y * s) by (nonlinear_arith)
            requires
                s > 0,
        ;
        assert(y < x <==> y * s < x * s) by (nonlinear_arith)
            requires
                s > 0,
        ;
    }
    (a, b)
}

fn whole_below_double(n: u64, bits: u64) -> (r: bool)
    ensures
        r == (n * one() < magnitude(bits)),
{
    proof {
        lemma_double_places(bits);
        assert(n * one() >= 0 && (n >= 1 ==> n * one() >= one()) && n * one() < 0x1_0000_0000_0000_0000 * one()) by (nonlinear_arith)
            requires
                0 <= n < 0x1_0000_0000_0000_0000,
                one() > 0,
        ;
    }
    let e: u64 = bits / 0x10_0000_0000_0000;
    if e < 1023 {
        n == 0 && bits > 0
    } else if e >= 1087 {
        true
    } else {
        let (a, b) = scaled(n, bits);
        a < b
    }
}

fn double_below_whole(bits: u64, n: u64) -> (r: bool)
    ensures
        r == (magnitude(bits) < n * one()),
{
    proof {
        lemma_double_places(bits);
        assert(n * one() >= 0 && (n >= 1 ==> n * one() >= one()) && n * one() < 0x1_0000_0000_0000_0000 * one()) by (nonlinear_arith)
            requires
                0 <= n < 0x1_0000_0000_0000_0000,
                one() > 0,
        ;
    }
    let e: u64 = bits / 0x10_0000_0000_0000;
    if e < 1023 {
        n > 0
    } else if e >= 1087 {
        false
    } else {
        let (a, b) = scaled(n, bits);
        b < a
    }
}

fn smaller(a: &Size, b: &Size) -> (r: bool)
    ensures
        r == (a.worth() < b.worth()),
{
    match (a, b) {
        (Size::Whole(x), Size::Whole(y)) => {
            proof {
                lemma_pow2_pos(1074);
                assert((*x < *y) == (*x * one() < *y * one())) by (nonlinear_arith)
                    requires
                        one() > 0,
                ;
            }
            *x < *y
        },
        (Size::Whole(x), Size::Double(y)) => whole_below_double(*x, *y),
        (Size::Double(x), Size::Whole(y)) => double_below_whole(*x, *y),
        (Size::Double(x), Size::Double(y)) => {
            proof {
                if *x < *y {
                    lemma_magnitude_rises(*x, *y);
                } else if *y < *x {
                    lemma_magnitude_rises(*y, *x);
                }
            }
            *x < *y
        },
    }
}

fn parts(n: &JsonNumber) -> (r: (bool, Size))
    ensures
        n.worth() == if r.0 { -(r.1.worth() as int) } else { r.1.worth() as int },
{
    match n {
        JsonNumber::PosInt(u) => (false, Size::Whole(*u)),
        JsonNumber::NegInt(i) => {
            proof {
                assert((-*i) * one() == -(*i * one())) by (nonlinear_arith);
            }
            if *i == i64::MIN {
                (true, Size::Whole(0x8000_0000_0000_0000))
            } else if *i < 0 {
                (true, Size::Whole((-*i) as u64))
            } else {
                (false, Size::Whole(*i as u64))
            }
        },
        JsonNumber::Double(bits) => if *bits < 0x8000_0000_0000_0000 {
            (false, Size::Double(*bits))
        } else {
            (true, Size::Double(*bits - 0x8000_0000_0000_0000))
        },
    }
}

/// Whether a number is less than another.
pub fn is_less(a: &JsonNumber, b: &JsonNumber) -> (r: bool)
    ensures
        r == (a.worth() < b.worth()),
{
    let zero = Size::Whole(0);
    let (x_below, x) = parts(a);
    let (y_below, y) = parts(b);
    match (x_below, y_below) {
        (false, false) => smaller(&x, &y),
        (true, true) => smaller(&y, &x),
        (true, false) => smaller(&zero, &x) || smaller(&zero, &y),
        (false, true) => false,
    }
}

impl JsonNumber {
    /// The number is whole, and negative where it is written as one.
    pub open spec fn is_whole(self) -> bool {
        match self {
            JsonNumber::PosInt(_) => true,
            JsonNumber::NegInt(n) => n < 0,
            JsonNumber::Double(_) => false,
        }
    }

    /// The value of a whole number.
    pub open spec fn integer(self) -> int {
        match self {
            JsonNumber::PosInt(n) => n as int,
            JsonNumber::NegInt(n) => n as int,
            JsonNumber::Double(_) => 0,
        }
    }
}

/// Whole numbers compare as integers, whatever their size: no two of them tie.
pub proof fn law_whole_numbers_compare_as_integers(a: JsonNumber, b: JsonNumber)
    requires
        a.is_whole(),
        b.is_whole(),
    ensures
        a.worth() < b.worth() <==> a.integer() < b.integer(),
        a.worth() == b.worth() <==> a == b,
{
    lemma_pow2_pos(1074);
    let (x, y) = (a.integer(), b.integer());
    assert(x < y <==> x * one() < y * one()) by (nonlinear_arith)
        requires
            one() > 0,
    ;
    assert(y < x <==> y * one() < x * one()) by (nonlinear_arith)
        requires
            one() > 0,
    ;
}

} // verus!
