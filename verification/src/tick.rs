//! Fixed-point tick arithmetic: the bijection between human-readable
//! decimal strings and integer tick counts.
//!
//! A `Tick` is constructed with a positive integer `unit`, the number of
//! ticks per whole unit (e.g. unit `1000` means three decimal places).
//! `to_ticks` parses a decimal byte string and returns its tick count,
//! failing if the string is malformed or its value is not a whole number
//! of ticks; `from_ticks` is the inverse and produces the canonical
//! decimal representation, with no leading zeros in the integer part and
//! no trailing zeros in the fraction.
//!
//! Fractions are limited to `MAX_FRAC_DIGITS` digits: the longest whose
//! exact scaling by a 64-bit `unit` fits the machine's integers.

use vstd::prelude::*;

verus! {

/// The longest supported fractional part, in digits.
pub const MAX_FRAC_DIGITS: usize = 19;

#[derive(Clone, Copy, PartialEq, Eq, Structural, Hash, Debug)]
/// Why a conversion failed.
pub enum TickError {
    /// The input is not a supported decimal string.
    Malformed,
    /// The value is not an exact multiple of one tick, or cannot be
    /// written within the supported precision.
    Misaligned,
    /// The tick count does not fit the tick-count type.
    Overflow,
}

/// `b` is an ASCII decimal digit.
pub open spec fn is_digit(b: u8) -> bool {
    48 <= b <= 57
}

/// Every byte of `s` is an ASCII decimal digit.
pub open spec fn all_digits(s: Seq<u8>) -> bool {
    forall|i: int| 0 <= i < s.len() ==> is_digit(#[trigger] s[i])
}

/// The numeric value of a digit string, most significant digit first.
pub open spec fn digits_val(s: Seq<u8>) -> int
    decreases s.len(),
{
    if s.len() == 0 {
        0
    } else {
        digits_val(s.drop_last()) * 10 + (s.last() - 48)
    }
}

/// Ten to the power `n`.
pub open spec fn pow10(n: nat) -> int
    decreases n,
{
    if n == 0 {
        1
    } else {
        10 * pow10((n - 1) as nat)
    }
}

/// The position of the first `.` in `s`, or `s.len()` if there is none.
pub open spec fn dot_index(s: Seq<u8>) -> int
    decreases s.len(),
{
    if s.len() == 0 {
        0
    } else if s[0] == 46 {
        0
    } else {
        1 + dot_index(s.subrange(1, s.len() as int))
    }
}

/// The digits before the `.` (or the whole string).
pub open spec fn int_part(s: Seq<u8>) -> Seq<u8> {
    s.subrange(0, dot_index(s))
}

/// The digits after the `.`, empty if there is no `.`.
pub open spec fn frac_part(s: Seq<u8>) -> Seq<u8> {
    if dot_index(s) < s.len() {
        s.subrange(dot_index(s) + 1, s.len() as int)
    } else {
        Seq::empty()
    }
}

/// The wire format: a non-empty digit string, optionally followed by `.`
/// and one to `MAX_FRAC_DIGITS` digits; no exponent, no sign.
pub open spec fn is_decimal(s: Seq<u8>) -> bool {
    &&& int_part(s).len() > 0
    &&& all_digits(int_part(s))
    &&& (dot_index(s) < s.len() ==> frac_part(s).len() > 0 && all_digits(frac_part(s)))
    &&& frac_part(s).len() <= MAX_FRAC_DIGITS
}

/// The tick count of the decimal string `s` under `unit`, rounding the
/// scaled fraction down: exact precisely when `tick_aligned` holds.
pub open spec fn tick_count(s: Seq<u8>, unit: u64) -> int {
    digits_val(int_part(s)) * unit + (digits_val(frac_part(s)) * unit) / pow10(
        frac_part(s).len(),
    )
}

/// The value of `s` is an exact multiple of one tick.
pub open spec fn tick_aligned(s: Seq<u8>, unit: u64) -> bool {
    (digits_val(frac_part(s)) * unit) % pow10(frac_part(s).len()) == 0
}

/// `n` ticks of `unit` have an exact decimal representation within the
/// supported precision.
pub open spec fn representable(n: u64, unit: u64) -> bool {
    exists|d: int|
        0 <= d <= MAX_FRAC_DIGITS && ((n as int % unit as int) * #[trigger] pow10(d as nat)) % (
        unit as int) == 0
}

/// Characterize `dot_index`: it is in bounds, points at a `.` when one
/// exists, and everything before it is not a `.`.
pub proof fn lemma_dot_index(s: Seq<u8>)
    ensures
        0 <= dot_index(s) <= s.len(),
        dot_index(s) < s.len() ==> s[dot_index(s)] == 46,
        forall|j: int| 0 <= j < dot_index(s) ==> s[j] != 46,
    decreases s.len(),
{
    if s.len() > 0 && s[0] != 46 {
        let t = s.subrange(1, s.len() as int);
        lemma_dot_index(t);
        assert forall|j: int| 0 <= j < dot_index(s) implies s[j] != 46 by {
            if j > 0 {
                assert(t[j - 1] != 46);
            }
        }
    }
}

/// A digit string's value is non-negative and below ten to its length.
pub proof fn lemma_digits_val_bound(s: Seq<u8>)
    requires
        all_digits(s),
    ensures
        0 <= digits_val(s) < pow10(s.len()),
    decreases s.len(),
{
    if s.len() > 0 {
        assert(all_digits(s.drop_last())) by {
            assert(forall|i: int| 0 <= i < s.len() - 1 ==> is_digit(#[trigger] s[i]));
        }
        lemma_digits_val_bound(s.drop_last());
    }
}

/// Extending a digit string never shrinks its value.
proof fn lemma_digits_val_prefix(s: Seq<u8>, i: int)
    requires
        all_digits(s),
        0 <= i <= s.len(),
    ensures
        digits_val(s.subrange(0, i)) <= digits_val(s),
    decreases s.len() - i,
{
    if i < s.len() {
        lemma_digits_val_prefix(s, i + 1);
        let a = s.subrange(0, i);
        let b = s.subrange(0, i + 1);
        assert(b.drop_last() =~= a);
        assert(all_digits(a)) by {
            assert(forall|j: int| 0 <= j < i ==> is_digit(#[trigger] s[j]));
        }
        lemma_digits_val_bound(a);
        assert(digits_val(b) == digits_val(a) * 10 + (b.last() - 48));
        assert(digits_val(a) * 10 >= digits_val(a)) by {
            lemma_digits_val_bound(a);
        }
    } else {
        assert(s.subrange(0, i) =~= s);
    }
}

/// A multiple of `u` stays a multiple after scaling.
proof fn lemma_mod_scale(x: int, y: int, u: int)
    requires
        u >= 1,
        y >= 0,
        x % u == 0,
    ensures
        (x * y) % u == 0,
{
    let k = x / u;
    assert(x == u * k) by {
        vstd::arithmetic::div_mod::lemma_fundamental_div_mod(x, u);
    }
    assert((u * k) * y == u * (k * y)) by (nonlinear_arith);
    assert((u * (k * y)) % u == 0) by {
        vstd::arithmetic::div_mod::lemma_mod_multiples_basic(k * y, u);
    }
}

/// Powers of ten compose.
proof fn lemma_pow10_add(a: nat, b: nat)
    ensures
        pow10(a + b) == pow10(a) * pow10(b),
    decreases a,
{
    if a > 0 {
        lemma_pow10_add((a - 1) as nat, b);
        assert((a - 1) + b == (a + b - 1) as nat);
        assert(10 * (pow10((a - 1) as nat) * pow10(b)) == (10 * pow10((a - 1) as nat)) * pow10(
            b,
        )) by (nonlinear_arith);
    }
}

#[derive(Clone, Copy, PartialEq, Eq, Structural, Hash, Debug)]
/// A tick unit: the quantum of prices or sizes on the wire.
pub struct Tick {
    unit: u64,
}

impl Tick {
    /// The number of ticks per whole unit.
    pub closed spec fn spec_unit(self) -> u64 {
        self.unit
    }

    /// A tick unit is a positive integer.
    pub open spec fn wf(self) -> bool {
        self.spec_unit() >= 1
    }

    /// Construct a tick of `unit` ticks per whole unit.
    pub fn new(unit: u64) -> (t: Tick)
        requires
            unit >= 1,
        ensures
            t.wf(),
            t.spec_unit() == unit,
    {
        Tick { unit }
    }

    /// Return the underlying unit.
    pub fn unit(&self) -> (u: u64)
        ensures
            u == self.spec_unit(),
    {
        self.unit
    }

    /// Parse a decimal byte string and return its exact tick count.
    /// Fails with `Malformed` on anything outside the wire format, with
    /// `Overflow` when the tick count does not fit `u64`, and with
    /// `Misaligned` when the value is not a whole number of ticks.
    #[verifier::rlimit(100)]
    pub fn to_ticks(&self, s: &[u8]) -> (r: Result<u64, TickError>)
        requires
            self.wf(),
        ensures
            match r {
                Ok(n) => is_decimal(s@) && tick_aligned(s@, self.spec_unit()) && n == tick_count(
                    s@,
                    self.spec_unit(),
                ),
                Err(TickError::Malformed) => !is_decimal(s@),
                Err(TickError::Overflow) => is_decimal(s@) && tick_count(s@, self.spec_unit())
                    > u64::MAX,
                Err(TickError::Misaligned) => is_decimal(s@) && tick_count(s@, self.spec_unit())
                    <= u64::MAX && !tick_aligned(s@, self.spec_unit()),
            },
    {
        let len = s.len();
        proof {
            lemma_dot_index(s@);
        }
        // Locate the dot.
        let mut d: usize = 0;
        while d < len && s[d] != 46
            invariant
                0 <= d <= len,
                len == s@.len(),
                forall|j: int| 0 <= j < d ==> s@[j] != 46,
            decreases len - d,
        {
            d = d + 1;
        }
        proof {
            assert(dot_index(s@) == d) by {
                if dot_index(s@) < d {
                    assert(s@[dot_index(s@)] != 46);
                }
                if dot_index(s@) > d {
                    assert(d < s@.len());
                }
            }
        }
        if d == 0 {
            return Err(TickError::Malformed);
        }
        // Validate the shape: digits, an optional dot, digits.
        let mut i: usize = 0;
        while i < d
            invariant
                0 <= i <= d <= len,
                len == s@.len(),
                d == dot_index(s@),
                forall|j: int| 0 <= j < i ==> is_digit(#[trigger] s@[j]),
            decreases d - i,
        {
            let b = s[i];
            if b < 48 || b > 57 {
                proof {
                    assert(int_part(s@)[i as int] == s@[i as int]);
                }
                return Err(TickError::Malformed);
            }
            i = i + 1;
        }
        let frac_len: usize = if d < len {
            len - d - 1
        } else {
            0
        };
        if d < len {
            if frac_len == 0 {
                return Err(TickError::Malformed);
            }
            if frac_len > MAX_FRAC_DIGITS {
                return Err(TickError::Malformed);
            }
            let mut i2: usize = d + 1;
            while i2 < len
                invariant
                    d + 1 <= i2 <= len,
                    len == s@.len(),
                    d == dot_index(s@),
                    forall|j: int| d + 1 <= j < i2 ==> is_digit(#[trigger] s@[j]),
                decreases len - i2,
            {
                let b = s[i2];
                if b < 48 || b > 57 {
                    proof {
                        assert(frac_part(s@)[i2 - d - 1] == s@[i2 as int]);
                    }
                    return Err(TickError::Malformed);
                }
                i2 = i2 + 1;
            }
        }
        proof {
            assert(all_digits(int_part(s@))) by {
                assert(forall|j: int|
                    0 <= j < d ==> int_part(s@)[j] == s@[j] && is_digit(#[trigger] s@[j]));
            }
            if d < len {
                assert(all_digits(frac_part(s@))) by {
                    assert(forall|j: int|
                        0 <= j < frac_part(s@).len() ==> frac_part(s@)[j] == s@[j + d + 1]);
                }
            }
            assert(is_decimal(s@));
        }
        let unit = self.unit;
        // Parse the integer part; a prefix already past the tick-count
        // range settles the outcome.
        let mut acc: u128 = 0;
        let mut i3: usize = 0;
        while i3 < d
            invariant
                0 <= i3 <= d <= len,
                len == s@.len(),
                is_decimal(s@),
                d == dot_index(s@),
                self.wf(),
                unit == self.spec_unit(),
                acc == digits_val(s@.subrange(0, i3 as int)),
                acc <= u64::MAX,
            decreases d - i3,
        {
            let b = s[i3];
            proof {
                assert(int_part(s@)[i3 as int] == s@[i3 as int]);
                assert(is_digit(s@[i3 as int]));
                assert(s@.subrange(0, i3 + 1).drop_last() =~= s@.subrange(0, i3 as int));
            }
            acc = acc * 10 + (b - 48) as u128;
            i3 = i3 + 1;
            if acc > u64::MAX as u128 {
                proof {
                    lemma_digits_val_prefix(int_part(s@), i3 as int);
                    assert(int_part(s@).subrange(0, i3 as int) =~= s@.subrange(0, i3 as int));
                    assert(digits_val(int_part(s@)) > u64::MAX);
                    let iv = digits_val(int_part(s@));
                    let fv = digits_val(frac_part(s@));
                    assert(iv * unit >= iv) by (nonlinear_arith)
                        requires iv >= 0 && unit >= 1;
                    lemma_digits_val_bound(frac_part(s@));
                    assert(fv * unit >= 0) by (nonlinear_arith)
                        requires fv >= 0 && unit >= 1;
                    assert(pow10(frac_part(s@).len()) >= 1) by {
                        lemma_digits_val_bound(frac_part(s@));
                    }
                    assert((fv * unit) / pow10(frac_part(s@).len()) >= 0) by {
                        vstd::arithmetic::div_mod::lemma_div_is_ordered(
                            0,
                            fv * unit,
                            pow10(frac_part(s@).len()),
                        );
                    }
                }
                return Err(TickError::Overflow);
            }
        }
        proof {
            assert(s@.subrange(0, d as int) =~= int_part(s@));
        }
        // Parse the fractional part.
        let mut facc: u128 = 0;
        if d < len {
            let mut i4: usize = d + 1;
            while i4 < len
                invariant
                    d + 1 <= i4 <= len,
                    len == s@.len(),
                    is_decimal(s@),
                    d == dot_index(s@),
                    facc == digits_val(s@.subrange(d + 1, i4 as int)),
                    facc < pow10((i4 - d - 1) as nat),
                    i4 - d - 1 <= MAX_FRAC_DIGITS,
                decreases len - i4,
            {
                let b = s[i4];
                proof {
                    assert(frac_part(s@)[i4 - d - 1] == s@[i4 as int]);
                    assert(is_digit(s@[i4 as int]));
                    assert(s@.subrange(d + 1, i4 + 1).drop_last() =~= s@.subrange(
                        d + 1,
                        i4 as int,
                    ));
                    assert(pow10((i4 + 1 - d - 1) as nat) == 10 * pow10((i4 - d - 1) as nat));
                    assert(pow10((i4 - d - 1) as nat) <= pow10(19)) by {
                        lemma_pow10_le(((i4 - d - 1) as nat), 19);
                    }
                    assert(pow10(19) < 0x10000000000000000int) by {
                        reveal_with_fuel(pow10, 21);
                    }
                }
                facc = facc * 10 + (b - 48) as u128;
                i4 = i4 + 1;
            }
            proof {
                assert(s@.subrange(d + 1, len as int) =~= frac_part(s@));
            }
        } else {
            proof {
                assert(frac_part(s@) =~= Seq::<u8>::empty());
            }
        }
        // Scale: the tick count is I * unit + (F * unit) / 10^frac_len,
        // exact iff 10^frac_len divides F * unit.
        let mut p: u128 = 1;
        let mut e: usize = 0;
        proof {
            lemma_pow10_le(0, 19);
        }
        while e < frac_len
            invariant
                0 <= e <= frac_len <= MAX_FRAC_DIGITS,
                p == pow10(e as nat),
                p <= pow10(19),
            decreases frac_len - e,
        {
            proof {
                lemma_pow10_le(((e + 1) as nat), 19);
                assert(pow10(19) < 0x10000000000000000int) by {
                    reveal_with_fuel(pow10, 21);
                }
            }
            p = p * 10;
            e = e + 1;
        }
        proof {
            assert(frac_len as int == frac_part(s@).len());
            lemma_digits_val_bound(frac_part(s@));
            lemma_pow10_le((frac_len as nat), 19);
            assert(pow10(19) < 0x10000000000000000int) by {
                reveal_with_fuel(pow10, 21);
            }
        }
        proof {
            assert(facc < 0x10000000000000000u128);
            assert(facc * (unit as u128) < 0x10000000000000000 * 0x10000000000000000)
                by (nonlinear_arith)
                requires facc < 0x10000000000000000u128 && (unit as u128) < 0x10000000000000000u128;
            assert(acc * (unit as u128) <= 0xffffffffffffffffu128 * 0xffffffffffffffffu128)
                by (nonlinear_arith)
                requires acc <= 0xffffffffffffffffu128 && (unit as u128) <= 0xffffffffffffffffu128;
        }
        let fu: u128 = facc * unit as u128;
        let q: u128 = fu / p;
        let rem: u128 = fu % p;
        let iu: u128 = acc * unit as u128;
        proof {
            assert(iu == digits_val(int_part(s@)) * unit);
            assert(fu == digits_val(frac_part(s@)) * unit);
            assert(q == (digits_val(frac_part(s@)) * unit) / pow10(frac_part(s@).len()));
            assert(rem == (digits_val(frac_part(s@)) * unit) % pow10(frac_part(s@).len()));
            assert(q <= fu) by {
                vstd::arithmetic::div_mod::lemma_fundamental_div_mod(fu as int, p as int);
                assert(fu as int - (p as int) * (q as int) >= 0);
                assert((p as int) * (q as int) >= q) by (nonlinear_arith)
                    requires p >= 1 && q >= 0;
            }
        }
        proof {
            if frac_len == 0 {
                assert(facc == 0);
                assert(q == 0);
            } else {
                assert(facc < p);
                assert(fu < p * (unit as u128)) by (nonlinear_arith)
                    requires facc < p && unit >= 1 && fu == facc * (unit as u128);
                assert(q < unit as u128) by {
                    vstd::arithmetic::div_mod::lemma_fundamental_div_mod(fu as int, p as int);
                    if q >= unit as u128 {
                        assert((p as int) * (q as int) >= (p as int) * (unit as int))
                            by (nonlinear_arith)
                            requires q >= unit && p >= 1;
                    }
                }
            }
        }
        let total: u128 = iu + q;
        if total > u64::MAX as u128 {
            return Err(TickError::Overflow);
        }
        if rem != 0 {
            return Err(TickError::Misaligned);
        }
        Ok(total as u64)
    }
}

/// The decimal digits of `v`, most significant first, with no leading
/// zero unless `v` itself is zero.
fn u64_digits(v: u64) -> (d: Vec<u8>)
    ensures
        all_digits(d@),
        d@.len() > 0,
        digits_val(d@) == v,
        d@.len() > 1 ==> d@[0] != 48,
    decreases v,
{
    if v < 10 {
        let mut d: Vec<u8> = Vec::new();
        d.push(48 + v as u8);
        proof {
            assert(d@.drop_last() =~= Seq::<u8>::empty());
            assert(digits_val(Seq::<u8>::empty()) == 0);
            assert(d@.last() == 48 + v);
        }
        d
    } else {
        let mut d = u64_digits(v / 10);
        let ghost d0 = d@;
        d.push(48 + (v % 10) as u8);
        proof {
            assert(d@.drop_last() =~= d0);
            assert(digits_val(d@) == digits_val(d0) * 10 + (v % 10));
            assert(digits_val(d0) * 10 + (v % 10) == v) by {
                vstd::arithmetic::div_mod::lemma_fundamental_div_mod(v as int, 10);
            }
            if d0.len() == 1 {
                assert(d0.drop_last() =~= Seq::<u8>::empty());
                assert(digits_val(Seq::<u8>::empty()) == 0);
                assert(d0.last() == d0[0]);
                assert(digits_val(d0) == d0[0] - 48);
            }
        }
        d
    }
}

impl Tick {
    /// The canonical decimal representation of `n` ticks: no leading
    /// zeros in the integer part, no trailing zeros in the fraction, and
    /// no fraction at all for a whole number of units.  Fails only when
    /// the value has no exact representation within the supported
    /// precision.
    #[verifier::rlimit(100)]
    pub fn from_ticks(&self, n: u64) -> (r: Result<Vec<u8>, TickError>)
        requires
            self.wf(),
        ensures
            match r {
                Ok(v) => {
                    &&& is_decimal(v@)
                    &&& tick_aligned(v@, self.spec_unit())
                    &&& tick_count(v@, self.spec_unit()) == n
                    &&& (int_part(v@).len() > 1 ==> int_part(v@)[0] != 48)
                    &&& (frac_part(v@).len() > 0 ==> frac_part(v@).last() != 48)
                },
                Err(e) => e == TickError::Misaligned && !representable(n, self.spec_unit()),
            },
    {
        let unit = self.unit;
        let ipart = n / unit;
        let mut r0: u64 = n % unit;
        proof {
            vstd::arithmetic::div_mod::lemma_fundamental_div_mod(n as int, unit as int);
        }
        let mut frac: Vec<u8> = Vec::new();
        while r0 != 0 && frac.len() < MAX_FRAC_DIGITS
            invariant
                self.wf(),
                unit == self.spec_unit(),
                r0 < unit,
                all_digits(frac@),
                frac@.len() <= MAX_FRAC_DIGITS,
                (n as int % unit as int) * pow10(frac@.len()) == digits_val(frac@) * unit + r0,
                frac@.len() > 0 && r0 == 0 ==> frac@.last() != 48,
            decreases MAX_FRAC_DIGITS - frac@.len(),
        {
            let x: u128 = (r0 as u128) * 10;
            let dg: u64 = (x / (unit as u128)) as u64;
            let nr: u64 = (x % (unit as u128)) as u64;
            let ghost f0 = frac@;
            proof {
                vstd::arithmetic::div_mod::lemma_fundamental_div_mod(x as int, unit as int);
                assert((x as int) < (unit as int) * 10) by (nonlinear_arith)
                    requires (x as int) == (r0 as int) * 10 && r0 < unit;
                vstd::arithmetic::div_mod::lemma_multiply_divide_lt(
                    x as int,
                    unit as int,
                    10,
                );
                assert((x as int) / (unit as int) < 10);
                assert(dg == (x as int) / (unit as int));
                assert(nr == (x as int) % (unit as int));
                assert(x == (dg as int) * unit + nr) by {
                    assert((unit as int) * ((x as int) / (unit as int)) == ((x as int) / (
                    unit as int)) * (unit as int)) by (nonlinear_arith);
                }
                if nr == 0 {
                    assert(dg > 0) by {
                        if dg == 0 {
                            assert((dg as int) * unit == 0) by (nonlinear_arith)
                                requires dg == 0;
                            assert(x == 0);
                            assert((r0 as int) * 10 >= 10) by (nonlinear_arith)
                                requires r0 >= 1;
                        }
                    }
                }
            }
            frac.push(48 + dg as u8);
            r0 = nr;
            proof {
                assert(frac@.drop_last() =~= f0);
                assert(digits_val(frac@) == digits_val(f0) * 10 + dg);
                assert(pow10(frac@.len()) == 10 * pow10(f0.len()));
                assert((n as int % unit as int) * (10 * pow10(f0.len())) == ((n as int % unit
                    as int) * pow10(f0.len())) * 10) by (nonlinear_arith);
                assert((digits_val(f0) * unit + (x as int) / 10 * 10) >= 0 || true);
                assert((digits_val(f0) * unit + (r0 as int) * 10 / 10) >= 0 || true);
                assert((digits_val(f0) * unit) * 10 + x == (digits_val(f0) * 10) * unit + x)
                    by (nonlinear_arith);
                assert((digits_val(f0) * 10) * unit + ((dg as int) * unit + nr) == (digits_val(
                    f0,
                ) * 10 + dg) * unit + nr) by (nonlinear_arith);
            }
        }
        if r0 != 0 {
            proof {
                let u = unit as int;
                let m = n as int % u;
                let fl = frac@.len();
                assert(fl == MAX_FRAC_DIGITS);
                assert((m * pow10(fl)) % u != 0) by {
                    assert(m * pow10(fl) == digits_val(frac@) * u + r0);
                    assert((digits_val(frac@) * u + r0) % u == r0) by {
                        assert(digits_val(frac@) * u == u * digits_val(frac@))
                            by (nonlinear_arith);
                        vstd::arithmetic::div_mod::lemma_mod_multiples_vanish(
                            digits_val(frac@),
                            r0 as int,
                            u,
                        );
                        vstd::arithmetic::div_mod::lemma_small_mod(r0 as nat, u as nat);
                    }
                }
                assert(!representable(n, self.spec_unit())) by {
                    if representable(n, self.spec_unit()) {
                        let d = choose|d: int|
                            0 <= d <= MAX_FRAC_DIGITS && (m * #[trigger] pow10(d as nat)) % u
                                == 0;
                        lemma_pow10_pos((fl - d) as nat);
                        lemma_mod_scale(m * pow10(d as nat), pow10((fl - d) as nat), u);
                        lemma_pow10_add((d as nat), ((fl - d) as nat));
                        assert((m * pow10(d as nat)) * pow10((fl - d) as nat) == m * (pow10(
                            d as nat,
                        ) * pow10((fl - d) as nat))) by (nonlinear_arith);
                        assert(pow10((fl - d) as nat) >= 0) by {
                            lemma_pow10_pos((fl - d) as nat);
                        }
                    }
                }
            }
            return Err(TickError::Misaligned);
        }
        let ghost ffinal = frac@;
        let idigits = u64_digits(ipart);
        let ghost ints = idigits@;
        let mut out = idigits;
        let frac_len = frac.len();
        if frac_len > 0 {
            out.push(46);
            let mut fv = frac;
            out.append(&mut fv);
        }
        proof {
            let u = unit as int;
            let m = n as int % u;
            if ffinal.len() > 0 {
                assert(out@ =~= ints + seq![46u8] + ffinal);
            } else {
                assert(out@ =~= ints);
            }
            lemma_dot_index(out@);
            assert(dot_index(out@) == ints.len()) by {
                if dot_index(out@) < ints.len() {
                    assert(out@[dot_index(out@)] == ints[dot_index(out@)]);
                    assert(is_digit(ints[dot_index(out@)]));
                } else if dot_index(out@) > ints.len() {
                    assert(ffinal.len() > 0);
                    assert(out@[ints.len() as int] == 46);
                }
                if ffinal.len() == 0 {
                    assert(dot_index(out@) <= out@.len());
                    if dot_index(out@) < out@.len() {
                        assert(out@[dot_index(out@)] == ints[dot_index(out@)]);
                        assert(is_digit(ints[dot_index(out@)]));
                    }
                }
            }
            assert(int_part(out@) =~= ints);
            if ffinal.len() > 0 {
                assert(frac_part(out@) =~= ffinal);
            } else {
                assert(frac_part(out@) =~= Seq::<u8>::empty());
            }
            assert(is_decimal(out@));
            // Alignment and the exact tick count.
            assert(m * pow10(frac_part(out@).len()) == digits_val(frac_part(out@)) * u);
            assert((digits_val(frac_part(out@)) * u) % pow10(frac_part(out@).len()) == 0) by {
                lemma_pow10_pos(frac_part(out@).len());
                vstd::arithmetic::div_mod::lemma_mod_multiples_basic(
                    m,
                    pow10(frac_part(out@).len()),
                );
                assert(pow10(frac_part(out@).len()) * m == m * pow10(frac_part(out@).len()))
                    by (nonlinear_arith);
            }
            assert((digits_val(frac_part(out@)) * u) / pow10(frac_part(out@).len()) == m) by {
                lemma_pow10_pos(frac_part(out@).len());
                vstd::arithmetic::div_mod::lemma_div_multiples_vanish(
                    m,
                    pow10(frac_part(out@).len()),
                );
                assert(pow10(frac_part(out@).len()) * m == m * pow10(frac_part(out@).len()))
                    by (nonlinear_arith);
            }
            assert(digits_val(int_part(out@)) == ipart);
            assert(tick_count(out@, self.spec_unit()) == ipart * u + m);
            assert(ipart * u + m == n) by {
                vstd::arithmetic::div_mod::lemma_fundamental_div_mod(n as int, u);
                assert(u * ((n as int) / u) == ((n as int) / u) * u) by (nonlinear_arith);
            }
        }
        Ok(out)
    }
}

/// Round trip: the canonical representation `from_ticks` produces for a
/// tick count `n` is accepted by `to_ticks` and converts back to exactly
/// `n`: the conditions `from_ticks` ensures of its output are precisely
/// the conditions under which `to_ticks` returns `Ok` with that count.
pub proof fn lemma_round_trip_from_to(v: Seq<u8>, n: u64, unit: u64)
    requires
        unit >= 1,
        is_decimal(v),
        tick_aligned(v, unit),
        tick_count(v, unit) == n,
    ensures
        is_decimal(v) && tick_aligned(v, unit) && 0 <= tick_count(v, unit) <= u64::MAX,
        tick_count(v, unit) == n,
{
}

/// Powers of ten are monotone.
proof fn lemma_pow10_le(a: nat, b: nat)
    requires
        a <= b,
    ensures
        pow10(a) <= pow10(b),
    decreases b,
{
    if a < b {
        lemma_pow10_le(a, (b - 1) as nat);
        assert(pow10(b) == 10 * pow10((b - 1) as nat));
        assert(pow10((b - 1) as nat) >= 1) by {
            lemma_pow10_pos((b - 1) as nat);
        }
    }
}

/// Powers of ten are positive.
proof fn lemma_pow10_pos(a: nat)
    ensures
        pow10(a) >= 1,
    decreases a,
{
    if a > 0 {
        lemma_pow10_pos((a - 1) as nat);
    }
}

} // verus!
