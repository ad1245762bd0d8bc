//! What the bits of an IEEE-754 double stand for, in integer arithmetic.

use vstd::prelude::*;
use vstd::arithmetic::power2::{pow2, lemma2_to64, lemma2_to64_rest, lemma_pow2_adds, lemma_pow2_pos,
    lemma_pow2_strictly_increases, lemma_pow2_unfold};
use vstd::arithmetic::div_mod::{lemma_fundamental_div_mod, lemma_fundamental_div_mod_converse_div,
    lemma_fundamental_div_mod_converse_mod, lemma_small_mod, lemma_div_denominator};
use vstd::arithmetic::mul::{lemma_mul_inequality, lemma_mul_strict_inequality};

verus! {

/// The biased exponent field of a double's bits.
pub open spec fn exp_field(bits: u64) -> nat {
    ((bits >> 52u64) & 0x7ffu64) as nat
}

/// The fraction field of a double's bits.
pub open spec fn frac_field(bits: u64) -> nat {
    (bits & 0xf_ffff_ffff_ffffu64) as nat
}

/// Whether a double's sign bit is set.
pub open spec fn sign_bit(bits: u64) -> bool {
    (bits >> 63u64) == 1
}

/// The significand of a finite double: the fraction, with the hidden bit
/// of a normal number. The double is `±significand * 2^scale`.
pub open spec fn significand(bits: u64) -> nat {
    if exp_field(bits) == 0 {
        frac_field(bits)
    } else {
        frac_field(bits) + 0x10_0000_0000_0000
    }
}

/// The power of two that scales the significand of a finite double.
pub open spec fn scale(bits: u64) -> int {
    if exp_field(bits) == 0 {
        -1074
    } else {
        exp_field(bits) - 1075
    }
}

/// The whole number a double stands for, given its bits: `None` for an
/// infinity, a NaN, or a finite value with a fractional part.
pub open spec fn f64_whole(bits: u64) -> Option<int> {
    let e = ((bits >> 52u64) & 0x7ffu64) as nat;
    let sig = (bits & 0xf_ffff_ffff_ffffu64) as nat + pow2(52);
    let mag: Option<int> = if e == 0x7ff {
        None
    } else if e == 0 {
        if bits & 0xf_ffff_ffff_ffffu64 == 0 {
            Some(0)
        } else {
            None
        }
    } else if e >= 1075 {
        Some((sig * pow2((e - 1075) as nat)) as int)
    } else if sig % pow2((1075 - e) as nat) == 0 {
        Some((sig / pow2((1075 - e) as nat)) as int)
    } else {
        None
    };
    match mag {
        Some(x) => Some(if bits >> 63u64 == 1 { -x } else { x }),
        None => None,
    }
}

/// A whole number brought into `i128` as Rust's `as` brings a float:
/// saturating at either end.
pub open spec fn saturate_i128(x: int) -> i128 {
    if x > i128::MAX {
        i128::MAX
    } else if x < i128::MIN {
        i128::MIN
    } else {
        x as i128
    }
}

/// How many low bits of `x` a double cannot hold: none below 2^53, one
/// more for each doubling above.
pub open spec fn excess_bits(x: nat) -> nat
    decreases x,
{
    if x < 0x20_0000_0000_0000 {
        0
    } else {
        1 + excess_bits(x / 2)
    }
}

/// The nonnegative integer `x` rounded to the nearest double, ties to the
/// even significand.
pub open spec fn round_to_double(x: nat) -> nat {
    let k = excess_bits(x);
    if k == 0 {
        x
    } else {
        let p = pow2(k);
        let q = x / p;
        let r = x % p;
        if r > p / 2 || (r == p / 2 && q % 2 == 1) {
            (q + 1) * p
        } else {
            q * p
        }
    }
}

/// An `i128` converted to a double: its magnitude rounded, its sign kept.
pub open spec fn int_as_double(m: i128) -> int {
    if m < 0 {
        -(round_to_double((-m) as nat) as int)
    } else {
        round_to_double(m as nat) as int
    }
}

/// How many times the double `bits` holds the nonzero integer `m`, when it
/// is a whole multiple of it; `None` for an infinity, a NaN, or no whole
/// multiple.
pub open spec fn double_multiple(bits: u64, m: int) -> Option<int> {
    if exp_field(bits) == 0x7ff || m == 0 {
        None
    } else {
        let am: nat = if m < 0 { (-m) as nat } else { m as nat };
        let sc = scale(bits);
        let num: nat = if sc >= 0 { significand(bits) * pow2(sc as nat) } else { significand(bits) };
        let den: nat = if sc >= 0 { am } else { am * pow2((-sc) as nat) };
        if num % den == 0 {
            let q = (num / den) as int;
            Some(if sign_bit(bits) != (m < 0) { -q } else { q })
        } else {
            None
        }
    }
}

/// The whole number a double's bits stand for, saturated into `i128`;
/// `None` when the double is not a finite whole number.
pub fn f64_bits_to_i128(bits: u64) -> (r: Option<i128>)
    ensures
        r == match f64_whole(bits) {
            Some(x) => Some(saturate_i128(x)),
            None => None::<i128>,
        },
{
    let e: u64 = (bits >> 52u64) & 0x7ffu64;
    let m: u64 = bits & 0xf_ffff_ffff_ffffu64;
    let neg: bool = (bits >> 63u64) == 1;
    proof {
        lemma2_to64();
        lemma2_to64_rest();
    }
    if e == 0x7ff {
        return None;
    }
    if e == 0 {
        return if m == 0 {
            Some(0)
        } else {
            None
        };
    }
    assert(m < 0x10_0000_0000_0000u64) by (bit_vector)
        requires
            m == bits & 0xf_ffff_ffff_ffffu64,
    ;
    assert(e <= 0x7ff) by (bit_vector)
        requires
            e == (bits >> 52u64) & 0x7ffu64,
    ;
    let sig: u64 = m + 0x10_0000_0000_0000u64;
    let ghost sg: nat = sig as nat;
    assert(sg == m as nat + pow2(52));
    let mag: u128 = if e >= 1075 {
        let k: u64 = e - 1075;
        if k >= 75 {
            proof {
                let kk = k as nat;
                lemma_pow2_adds(52, kk);
                lemma_pow2_pos(kk);
                if 52 + kk > 127 {
                    lemma_pow2_strictly_increases(127, 52 + kk);
                }
                lemma_pow2_adds(63, 64);
                vstd::arithmetic::mul::lemma_mul_inequality(pow2(52) as int, sg as int, pow2(kk) as int);
                assert(sg * pow2(kk) >= pow2(127));
            }
            return Some(if neg { i128::MIN } else { i128::MAX });
        }
        let mut acc: u128 = sig as u128;
        let mut j: u64 = 0;
        proof {
            lemma_pow2_adds(63, 64);
        }
        while j < k
            invariant
                j <= k < 75,
                sg < pow2(53),
                pow2(127) == pow2(63) * pow2(64),
                pow2(63) == 0x8000000000000000,
                pow2(64) == 0x10000000000000000,
                acc as nat == sg * pow2(j as nat),
            decreases k - j,
        {
            proof {
                let jj = j as nat;
                lemma_pow2_pos(jj);
                lemma_pow2_adds(53, jj);
                lemma_pow2_unfold(jj + 1);
                vstd::arithmetic::mul::lemma_mul_strict_inequality(sg as int, pow2(53) as int, pow2(jj) as int);
                if 53 + jj < 127 {
                    lemma_pow2_strictly_increases(53 + jj, 127);
                }
                assert(acc < pow2(127));
                assert(sg * pow2(jj + 1) == 2 * (sg * pow2(jj))) by (nonlinear_arith)
                    requires
                        pow2(jj + 1) == 2 * pow2(jj),
                ;
            }
            acc = acc * 2;
            j += 1;
        }
        proof {
            let kk = k as nat;
            lemma_pow2_pos(kk);
            lemma_pow2_adds(53, kk);
            vstd::arithmetic::mul::lemma_mul_strict_inequality(sg as int, pow2(53) as int, pow2(kk) as int);
            if 53 + kk < 127 {
                lemma_pow2_strictly_increases(53 + kk, 127);
            }
        }
        acc
    } else {
        let sh: u64 = 1075 - e;
        if sh > 53 {
            proof {
                lemma_pow2_strictly_increases(53, sh as nat);
                vstd::arithmetic::div_mod::lemma_small_mod(sg, pow2(sh as nat));
            }
            return None;
        }
        proof {
            vstd::bits::lemma_u64_pow2_no_overflow(sh as nat);
            vstd::bits::lemma_u64_shl_is_mul(1, sh);
        }
        let p: u64 = 1u64 << sh;
        assert(p as nat == pow2(sh as nat));
        if sig % p != 0 {
            return None;
        }
        proof {
            vstd::arithmetic::div_mod::lemma_div_is_ordered_by_denominator(sg as int, 1, p as int);
        }
        (sig / p) as u128
    };
    assert(mag < 0x8000_0000_0000_0000_0000_0000_0000_0000u128);
    let v: i128 = mag as i128;
    Some(if neg { -v } else { v })
}


/// The nonnegative integer `x`, at most 2^127, rounded to the nearest
/// double.
pub fn round_to_double_exec(x: u128) -> (r: u128)
    requires
        x <= 0x8000_0000_0000_0000_0000_0000_0000_0000u128,
    ensures
        r == round_to_double(x as nat),
        x > 0 ==> r > 0,
{
    let mut y: u128 = x;
    let mut k: u32 = 0;
    let mut p: u128 = 1;
    proof {
        lemma2_to64();
        assert(x as nat / pow2(0) == x);
    }
    while y >= 0x20_0000_0000_0000u128
        invariant
            pow2(64) == 0x1_0000_0000_0000_0000,
            pow2(11) == 0x800,
            y as nat == x as nat / pow2(k as nat),
            p as nat == pow2(k as nat),
            excess_bits(x as nat) == k + excess_bits(y as nat),
            p * y <= x,
            x <= 0x8000_0000_0000_0000_0000_0000_0000_0000u128,
            k > 0 ==> y >= 0x10_0000_0000_0000u128,
            k <= 128,
        decreases y,
    {
        proof {
            lemma_pow2_pos(k as nat);
            lemma_div_denominator(x as int, pow2(k as nat) as int, 2);
            lemma_pow2_unfold((k + 1) as nat);
            assert(p * 0x20_0000_0000_0000 <= x) by (nonlinear_arith)
                requires
                    p * y <= x,
                    y >= 0x20_0000_0000_0000,
            ;
            assert(2 * p * (y / 2) <= p * y) by (nonlinear_arith)
                requires
                    p >= 0,
                    y >= 0,
            ;
            if k >= 75 {
                lemma_pow2_adds(64, 11);
                if k > 75 {
                    lemma_pow2_strictly_increases(75, k as nat);
                }
                assert(false);
            }
        }
        y = y / 2;
        k = k + 1;
        p = p * 2;
    }
    if k == 0 {
        return x;
    }
    proof {
        lemma_pow2_pos(k as nat);
    }
    let q: u128 = y;
    let r: u128 = x % p;
    let h: u128 = p / 2;
    proof {
        lemma_pow2_pos(k as nat);
        lemma_fundamental_div_mod(x as int, p as int);
        assert(p <= x) by (nonlinear_arith)
            requires
                p * y <= x,
                y >= 1,
                p >= 1,
        ;
        assert(q * p + r == x) by (nonlinear_arith)
            requires
                x == p * (x / p) + x % p,
                q == x / p,
                r == x % p,
        ;
        assert(q * p >= p) by (nonlinear_arith)
            requires
                q >= 1,
                p >= 1,
        ;
    }
    if r > h || (r == h && q % 2 == 1) {
        proof {
            assert((q + 1) * p == q * p + p) by (nonlinear_arith);
        }
        (q + 1) * p
    } else {
        q * p
    }
}

/// How many times the double `bits` holds the nonzero integer `±am`
/// (negative when `neg_m`), saturated into `i128`, when it is a whole
/// multiple of it.
pub fn double_multiple_exec(bits: u64, neg_m: bool, am: u128) -> (r: Option<i128>)
    requires
        am >= 1,
    ensures
        r == match double_multiple(bits, if neg_m { -(am as int) } else { am as int }) {
            Some(q) => Some(saturate_i128(q)),
            None => None::<i128>,
        },
{
    let e: u64 = (bits >> 52u64) & 0x7ffu64;
    if e == 0x7ff {
        return None;
    }
    let f: u64 = bits & 0xf_ffff_ffff_ffffu64;
    assert(f < 0x10_0000_0000_0000u64) by (bit_vector)
        requires
            f == bits & 0xf_ffff_ffff_ffffu64,
    ;
    assert(e <= 0x7ff) by (bit_vector)
        requires
            e == (bits >> 52u64) & 0x7ffu64,
    ;
    let sig: u64 = if e == 0 {
        f
    } else {
        f + 0x10_0000_0000_0000u64
    };
    let neg: bool = ((bits >> 63u64) == 1) != neg_m;
    let sigw: u128 = sig as u128;
    assert(sig as nat == significand(bits));
    proof {
        lemma2_to64();
        lemma2_to64_rest();
    }
    if e >= 1075 {
        let sc: u64 = e - 1075;
        let mut qq: u128 = sigw / am;
        let mut r: u128 = sigw % am;
        let mut big: bool = false;
        let mut j: u64 = 0;
        let ghost mut gq: int = (sigw / am) as int;
        proof {
            lemma_fundamental_div_mod(sigw as int, am as int);
            assert(sig as int * pow2(0) == gq * am + r) by (nonlinear_arith)
                requires
                    sigw as int == am * (sigw as int / am as int) + sigw as int % am as int,
                    gq == sigw as int / am as int,
                    r == sigw as int % am as int,
                    sig == sigw,
                    pow2(0) == 1,
            ;
        }
        while j < sc
            invariant
                j <= sc,
                am >= 1,
                r < am,
                gq >= 0,
                sig as int * pow2(j as nat) == gq * am + r,
                !big ==> qq == gq && qq < 0x8000_0000_0000_0000_0000_0000_0000_0000u128,
                big ==> gq >= 0x8000_0000_0000_0000_0000_0000_0000_0000int,
            decreases sc - j,
        {
            let carry: bool = r >= am - r;
            let ghost gq2: int = 2 * gq + (if carry { 1int } else { 0int });
            let ghost r0: int = r as int;
            proof {
                lemma_pow2_unfold((j + 1) as nat);
            }
            r = if carry {
                r - (am - r)
            } else {
                r + r
            };
            proof {
                assert(sig as int * pow2((j + 1) as nat) == gq2 * am + r) by (nonlinear_arith)
                    requires
                        pow2((j + 1) as nat) == 2 * pow2(j as nat),
                        sig as int * pow2(j as nat) == gq * am + r0,
                        gq2 == 2 * gq + (if carry { 1int } else { 0int }),
                        r == if carry { 2 * r0 - am } else { 2 * r0 },
                ;
            }
            if !big {
                if qq >= 0x4000_0000_0000_0000_0000_0000_0000_0000u128 {
                    big = true;
                } else {
                    qq = qq * 2 + if carry {
                        1
                    } else {
                        0
                    };
                }
            }
            proof {
                gq = gq2;
            }
            j += 1;
        }
        let ghost num: int = sig as int * pow2(sc as nat);
        proof {
            lemma_fundamental_div_mod_converse_mod(num, am as int, gq, r as int);
            lemma_fundamental_div_mod_converse_div(num, am as int, gq, r as int);
        }
        if r != 0 {
            return None;
        }
        if big {
            return Some(
                if neg {
                    i128::MIN
                } else {
                    i128::MAX
                },
            );
        }
        let v: i128 = qq as i128;
        Some(
            if neg {
                -v
            } else {
                v
            },
        )
    } else {
        let sh: u64 = if e == 0 {
            1074
        } else {
            1075 - e
        };
        proof {
            lemma_pow2_pos(sh as nat);
        }
        if sig == 0 {
            proof {
                let den: int = am * pow2(sh as nat);
                assert(den > 0) by (nonlinear_arith)
                    requires
                        am >= 1,
                        pow2(sh as nat) > 0,
                        den == am * pow2(sh as nat),
                ;
                lemma_small_mod(0, den as nat);
            }
            return Some(0);
        }
        if sh >= 53 || am > sigw {
            proof {
                let den: int = am * pow2(sh as nat);
                if sh >= 53 {
                    if sh > 53 {
                        lemma_pow2_strictly_increases(53, sh as nat);
                    }
                    assert(den >= pow2(sh as nat)) by (nonlinear_arith)
                        requires
                            am >= 1,
                            pow2(sh as nat) > 0,
                            den == am * pow2(sh as nat),
                    ;
                } else {
                    assert(den >= am) by (nonlinear_arith)
                        requires
                            am >= 1,
                            pow2(sh as nat) >= 1,
                            den == am * pow2(sh as nat),
                    ;
                }
                assert(sig < 0x20_0000_0000_0000u64);
                assert(den > sig);
                lemma_small_mod(sig as nat, den as nat);
            }
            return None;
        }
        proof {
            vstd::bits::lemma_u64_pow2_no_overflow(sh as nat);
            vstd::bits::lemma_u64_shl_is_mul(1, sh);
            if sh < 52 {
                lemma_pow2_strictly_increases(sh as nat, 52);
            }
        }
        let p: u64 = 1u64 << sh;
        assert(p as nat == pow2(sh as nat));
        assert(pow2(sh as nat) <= pow2(52));
        assert(p <= 0x10_0000_0000_0000u64);
        assert(am * (p as u128) <= 0x20_0000_0000_0000u128 * 0x10_0000_0000_0000u128) by (nonlinear_arith)
            requires
                am <= sigw,
                sigw < 0x20_0000_0000_0000u128,
                p <= 0x10_0000_0000_0000u64,
        ;
        let den: u128 = am * (p as u128);
        assert(den >= 1) by (nonlinear_arith)
            requires
                am >= 1,
                p >= 1,
                den == am * p,
        ;
        if sigw % den != 0 {
            return None;
        }
        let q: u128 = sigw / den;
        assert(q <= sigw) by (nonlinear_arith)
            requires
                den >= 1,
                q == sigw / den,
        {
            vstd::arithmetic::div_mod::lemma_div_is_ordered_by_denominator(sigw as int, 1, den as int);
        }
        Some(
            if neg {
                -(q as i128)
            } else {
                q as i128
            },
        )
    }
}

/// A double that holds the integer `m` a whole `q` times is the whole
/// number `q * m`.
pub proof fn lemma_double_multiple_whole(bits: u64, m: int)
    requires
        double_multiple(bits, m) is Some,
    ensures
        f64_whole(bits) == Some(double_multiple(bits, m).unwrap() * m),
{
    let e = exp_field(bits);
    let frac = frac_field(bits);
    let am: nat = if m < 0 { (-m) as nat } else { m as nat };
    let sc = scale(bits);
    let num: nat = if sc >= 0 { significand(bits) * pow2(sc as nat) } else { significand(bits) };
    let den: nat = if sc >= 0 { am } else { am * pow2((-sc) as nat) };
    let q = (num / den) as int;
    lemma2_to64();
    lemma2_to64_rest();
    assert(frac < 0x10_0000_0000_0000) by {
        assert((bits & 0xf_ffff_ffff_ffffu64) <= 0xf_ffff_ffff_ffffu64) by (bit_vector);
    }
    assert(den > 0) by {
        if sc < 0 {
            lemma_pow2_pos((-sc) as nat);
            assert(am * pow2((-sc) as nat) > 0) by (nonlinear_arith)
                requires am > 0, pow2((-sc) as nat) > 0;
        }
    }
    lemma_fundamental_div_mod(num as int, den as int);
    assert(num == q * den) by (nonlinear_arith)
        requires num == den * (num / den) + num % den, num % den == 0, q == num / den;
    // The magnitude of the double is `q * am`.
    let mag: int = q * am;
    if e == 0 {
        if frac != 0 {
            lemma_pow2_strictly_increases(52, 1074);
            assert(sc == -1074);
            assert(num == frac);
            assert(den >= pow2(1074)) by (nonlinear_arith)
                requires den == am * pow2(1074), am >= 1;
            lemma_small_mod(num, den);
            assert(false);
        }
        assert(q == 0) by (nonlinear_arith)
            requires num == q * den, num == 0, den > 0;
        assert(mag == 0);
    } else if e >= 1075 {
        assert(sc == e - 1075);
        assert(num == q * am);
    } else {
        let k = (1075 - e) as nat;
        assert(sc == -(k as int));
        lemma_pow2_pos(k);
        assert(num == mag * pow2(k)) by (nonlinear_arith)
            requires num == q * den, den == am * pow2(k), mag == q * am;
        assert(mag >= 0) by (nonlinear_arith)
            requires num == mag * pow2(k), pow2(k) > 0, num >= 0;
        lemma_fundamental_div_mod_converse_mod(num as int, pow2(k) as int, mag, 0);
        lemma_fundamental_div_mod_converse_div(num as int, pow2(k) as int, mag, 0);
    }
    let sig = (bits & 0xf_ffff_ffff_ffffu64) as nat + pow2(52);
    assert(e != 0 ==> sig == significand(bits));
    let whole: Option<int> = if e == 0x7ff {
        None
    } else if e == 0 {
        if bits & 0xf_ffff_ffff_ffffu64 == 0 { Some(0) } else { None }
    } else if e >= 1075 {
        Some((sig * pow2((e - 1075) as nat)) as int)
    } else if sig % pow2((1075 - e) as nat) == 0 {
        Some((sig / pow2((1075 - e) as nat)) as int)
    } else {
        None
    };
    assert(whole == Some(mag));
    let r = double_multiple(bits, m).unwrap();
    assert(r * m == if sign_bit(bits) { -mag } else { mag }) by (nonlinear_arith)
        requires
            r == if sign_bit(bits) != (m < 0) { -q } else { q },
            mag == q * am,
            am == if m < 0 { -m } else { m };
}

} // verus!
