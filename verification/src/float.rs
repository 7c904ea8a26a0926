//! Floating-point numbers as the library carries them.
//!
//! The library does no floating-point arithmetic. A number that was read from
//! a worksheet comes with what the later steps need of it; a number that began
//! as an integer is kept as that integer.

use crate::text::{decimal_digits, push_decimal};
use vstd::prelude::*;

verus! {

/// A 64-bit floating-point number.
#[derive(Debug, Clone, PartialEq)]
pub enum Float {
    /// The number nearest to an integer.
    OfInt(i64),
    /// A number that was read from text.
    Parsed(ParsedFloat),
}

/// What is kept of a floating-point number that was read from text.
#[derive(Debug, Clone, PartialEq)]
pub struct ParsedFloat {
    /// Its IEEE 754 bits.
    pub bits: u64,
    /// Its shortest decimal notation.
    pub text: String,
    /// Its reading as a date serial.
    pub serial: SerialParts,
}

/// A date serial taken apart: whole days, and the time of day in three units.
#[derive(Debug, Clone, Copy, PartialEq, Eq, Structural)]
pub struct SerialParts {
    /// The largest integer that is not above the serial.
    pub days: i128,
    /// The fraction of the day in milliseconds, rounded.
    pub day_millis: i64,
    /// The fraction of the day in whole seconds.
    pub day_seconds: u64,
    /// What is left of the last second in milliseconds, rounded: 0 to 1000.
    pub milli: u64,
}

/// The gap between a floating-point number of magnitude `n` and the next one,
/// where it is at least 1.
pub open spec fn double_gap(n: nat) -> nat
    decreases n,
{
    if n < 0x20_0000_0000_0000 {
        1
    } else {
        2 * double_gap(n / 2)
    }
}

/// The integer that the floating-point number nearest to `n` equals. Of two
/// that are equally near, the one with the even significand.
pub open spec fn nearest_double(n: nat) -> nat {
    let gap = double_gap(n);
    let q = n / gap;
    let r = n % gap;
    if 2 * r < gap || (2 * r == gap && q % 2 == 0) {
        (q * gap) as nat
    } else {
        ((q + 1) * gap) as nat
    }
}

/// Ten to the power `exponent`.
pub open spec fn power_of_ten(exponent: nat) -> nat
    decreases exponent,
{
    if exponent == 0 {
        1
    } else {
        10 * power_of_ten((exponent - 1) as nat)
    }
}

/// Whether a text that is `distance` below (or above) the floating-point
/// number `v` still reads back as `v`.
pub open spec fn reads_back(v: nat, distance: nat, below: bool) -> bool {
    let gap = double_gap(v);
    let significand = v / gap;
    let doubled_room = if below && gap > 1 && significand == 0x10_0000_0000_0000 {
        gap / 2
    } else {
        gap
    };
    2 * distance < doubled_room || (2 * distance == doubled_room && significand % 2 == 0)
}

/// The multiple of the highest power of ten, up to `exponent`, that reads back
/// as `v`: of the two next to `v` the nearer one, the upper where both are
/// equally near.
pub open spec fn shortest_decimal(v: nat, exponent: nat) -> nat
    decreases exponent,
{
    let unit = power_of_ten(exponent);
    let rest = v % unit;
    if exponent == 0 {
        v
    } else {
        let down = reads_back(v, rest, true);
        let up = reads_back(v, (unit - rest) as nat, false);
        if down && (!up || 2 * rest < unit) {
            (v - rest) as nat
        } else if up {
            (v - rest + unit) as nat
        } else {
            shortest_decimal(v, (exponent - 1) as nat)
        }
    }
}

/// The magnitude of an integer.
pub open spec fn magnitude(n: int) -> nat {
    if n < 0 {
        (-n) as nat
    } else {
        n as nat
    }
}

/// The shortest decimal notation of the floating-point number nearest to `n`.
pub open spec fn double_text(n: int) -> Seq<char> {
    let digits = decimal_digits(shortest_decimal(nearest_double(magnitude(n)), 19));
    if n < 0 {
        seq!['-'] + digits
    } else {
        digits
    }
}

/// The decimal notation of a floating-point number.
pub open spec fn float_text(number: Float) -> Seq<char> {
    match number {
        Float::OfInt(n) => double_text(n as int),
        Float::Parsed(p) => p.text@,
    }
}

/// A floating-point number as a date serial.
pub open spec fn float_serial(number: Float) -> SerialParts {
    match number {
        Float::OfInt(n) => SerialParts {
            days: (if n < 0 {
                -nearest_double(magnitude(n as int))
            } else {
                nearest_double(magnitude(n as int)) as int
            }) as i128,
            day_millis: 0,
            day_seconds: 0,
            milli: 0,
        },
        Float::Parsed(p) => p.serial,
    }
}

proof fn lemma_gap_bounds(n: nat)
    ensures
        1 <= double_gap(n),
        n < 0x1_0000_0000_0000_0000 ==> double_gap(n) <= 2048,
        n / double_gap(n) < 0x20_0000_0000_0000,
    decreases n,
{
    if n >= 0x20_0000_0000_0000 {
        lemma_gap_bounds(n / 2);
        let g = double_gap(n / 2);
        assert(n / (2 * g) == (n / 2) / g) by {
            vstd::arithmetic::div_mod::lemma_div_denominator(n as int, 2, g as int);
        }
        reveal_with_fuel(double_gap, 13);
    }
}

/// The gap between floating-point numbers at an integer.
fn gap_of(n: u64) -> (gap: u64)
    ensures
        gap == double_gap(n as nat),
        1 <= gap <= 2048,
    decreases n,
{
    proof {
        lemma_gap_bounds(n as nat);
    }
    if n < 0x20_0000_0000_0000 {
        1
    } else {
        2 * gap_of(n / 2)
    }
}

proof fn lemma_nearest_bound(n: nat)
    requires
        n < 0x1_0000_0000_0000_0000,
    ensures
        nearest_double(n) <= n + 2048,
{
    lemma_gap_bounds(n);
    let gap = double_gap(n);
    vstd::arithmetic::div_mod::lemma_fundamental_div_mod(n as int, gap as int);
    assert((n / gap) * gap <= n) by (nonlinear_arith)
        requires
            n as int == gap * (n / gap) + n % gap,
            gap >= 1,
            n % gap >= 0,
    ;
    assert((n / gap + 1) * gap == (n / gap) * gap + gap) by (nonlinear_arith);
}

/// The integer that the floating-point number nearest to `n` equals.
fn nearest_of(n: u64) -> (v: u64)
    requires
        n <= 0x8000_0000_0000_0000,
    ensures
        v == nearest_double(n as nat),
        v <= n + 2048,
{
    let gap: u64 = gap_of(n);
    let q: u64 = n / gap;
    let r: u64 = n % gap;
    proof {
        lemma_nearest_bound(n as nat);
        lemma_gap_bounds(n as nat);
        assert(q * gap <= n) by (nonlinear_arith)
            requires
                q == n / gap,
                gap >= 1,
        ;
        assert((q + 1) * gap == q * gap + gap) by (nonlinear_arith);
    }
    if 2 * r < gap || (2 * r == gap && q % 2 == 0) {
        q * gap
    } else {
        (q + 1) * gap
    }
}

fn reads_back_as(v: u64, distance: u64, below: bool) -> (same: bool)
    requires
        distance <= 10_000_000_000_000_000_000,
    ensures
        same == reads_back(v as nat, distance as nat, below),
{
    let gap: u64 = gap_of(v);
    let significand: u64 = v / gap;
    let doubled_room: u64 = if below && gap > 1 && significand == 0x10_0000_0000_0000 {
        gap / 2
    } else {
        gap
    };
    let doubled: u128 = 2 * (distance as u128);
    doubled < doubled_room as u128 || (doubled == doubled_room as u128 && significand % 2 == 0)
}

fn shortest_from(v: u64, exponent: u64, unit: u64) -> (n: u64)
    requires
        v <= 0x8000_0000_0000_1000,
        exponent <= 19,
        unit == power_of_ten(exponent as nat),
        unit <= 10_000_000_000_000_000_000,
        v < unit || unit <= 1_000_000_000_000_000_000,
    ensures
        n == shortest_decimal(v as nat, exponent as nat),
    decreases exponent,
{
    if exponent == 0 {
        return v;
    }
    assert(unit >= 10) by {
        lemma_power_of_ten_positive((exponent - 1) as nat);
    }
    let rest: u64 = v % unit;
    proof {
        if v < unit {
            vstd::arithmetic::div_mod::lemma_small_mod(v as nat, unit as nat);
        }
        vstd::arithmetic::div_mod::lemma_mod_decreases(v as nat, unit as nat);
    }
    let down = reads_back_as(v, rest, true);
    let up = reads_back_as(v, unit - rest, false);
    if down && (!up || 2 * (rest as u128) < unit as u128) {
        v - rest
    } else if up {
        (v - rest) + unit
    } else {
        shortest_from(v, exponent - 1, unit / 10)
    }
}

proof fn lemma_power_of_ten_positive(exponent: nat)
    ensures
        power_of_ten(exponent) >= 1,
    decreases exponent,
{
    if exponent > 0 {
        lemma_power_of_ten_positive((exponent - 1) as nat);
    }
}

/// The shortest decimal notation of an integer read as a floating-point number
/// has at most twenty digits.
pub proof fn lemma_double_digits(n: i64)
    ensures
        shortest_decimal(nearest_double(magnitude(n as int)), 19) < 100_000_000_000_000_000_000,
{
    lemma_nearest_bound(magnitude(n as int));
    lemma_shortest_bound(nearest_double(magnitude(n as int)), 19);
    assert(power_of_ten(19) == 10_000_000_000_000_000_000) by {
        reveal_with_fuel(power_of_ten, 20);
    }
}

proof fn lemma_shortest_bound(v: nat, exponent: nat)
    ensures
        shortest_decimal(v, exponent) <= v + power_of_ten(exponent),
    decreases exponent,
{
    lemma_power_of_ten_positive(exponent);
    let unit = power_of_ten(exponent);
    vstd::arithmetic::div_mod::lemma_mod_decreases(v, unit);
    if exponent > 0 {
        lemma_power_of_ten_positive((exponent - 1) as nat);
        lemma_shortest_bound(v, (exponent - 1) as nat);
    }
}

impl Float {
    /// A copy of the number.
    pub fn copy(&self) -> (number: Float)
        ensures
            number == *self,
    {
        match self {
            Float::OfInt(n) => Float::OfInt(*n),
            Float::Parsed(p) => Float::Parsed(
                ParsedFloat { bits: p.bits, text: p.text.clone(), serial: p.serial },
            ),
        }
    }

    /// The decimal notation of the number.
    pub fn text(&self) -> (text: String)
        ensures
            text@ == float_text(*self),
    {
        match self {
            Float::OfInt(n) => {
                let mut out = String::new();
                let size: u64 = if *n < 0 {
                    (-(*n as i128)) as u64
                } else {
                    *n as u64
                };
                let v: u64 = nearest_of(size);
                assert(power_of_ten(19) == 10_000_000_000_000_000_000) by {
                    reveal_with_fuel(power_of_ten, 20);
                }
                let digits: u64 = shortest_from(v, 19, 10_000_000_000_000_000_000);
                proof {
                    reveal_strlit("-");
                }
                if *n < 0 {
                    out.append("-");
                }
                push_decimal(&mut out, digits);
                assert(out@ =~= double_text(*n as int));
                out
            },
            Float::Parsed(p) => p.text.clone(),
        }
    }

    /// The number as a date serial.
    pub fn serial(&self) -> (parts: SerialParts)
        ensures
            parts == float_serial(*self),
    {
        match self {
            Float::OfInt(n) => {
                let size: u64 = if *n < 0 {
                    (-(*n as i128)) as u64
                } else {
                    *n as u64
                };
                let v: u64 = nearest_of(size);
                let days: i128 = if *n < 0 {
                    -(v as i128)
                } else {
                    v as i128
                };
                SerialParts { days, day_millis: 0, day_seconds: 0, milli: 0 }
            },
            Float::Parsed(p) => p.serial,
        }
    }
}

/// An integer of up to 53 bits is a floating-point number as it is: as a date serial it
/// is that many whole days and no time of day, and its text is that of the integer.
pub proof fn law_small_integer_is_exact(n: i64)
    requires
        -0x20_0000_0000_0000 < n < 0x20_0000_0000_0000,
    ensures
        float_serial(Float::OfInt(n)) == (SerialParts {
            days: n as i128,
            day_millis: 0,
            day_seconds: 0,
            milli: 0,
        }),
        float_text(Float::OfInt(n)) == crate::text::decimal(n as int),
{
    let v = magnitude(n as int);
    assert(double_gap(v) == 1);
    assert(nearest_double(v) == v);
    lemma_exact_is_shortest(v, 19);
}

proof fn lemma_exact_is_shortest(v: nat, exponent: nat)
    requires
        v < 0x20_0000_0000_0000,
    ensures
        shortest_decimal(v, exponent) == v,
    decreases exponent,
{
    if exponent > 0 {
        lemma_power_of_ten_positive(exponent);
        let unit = power_of_ten(exponent);
        let rest = v % unit;
        vstd::arithmetic::div_mod::lemma_mod_bound(v as int, unit as int);
        lemma_exact_is_shortest(v, (exponent - 1) as nat);
    }
}

/// The floating-point number of an integer is a multiple of the gap between the numbers
/// there, and none is nearer; it has at most 53 significant bits. The text of the number
/// lies so near to it that no other number is nearer.
pub proof fn law_double_is_nearest(n: nat)
    requires
        n < 0x1_0000_0000_0000_0000,
    ensures
        ({
            let v = nearest_double(n);
            let gap = double_gap(n);
            let text = shortest_decimal(v, 19);
            &&& v % gap == 0
            &&& 2 * (v - n) <= gap
            &&& 2 * (n - v) <= gap
            &&& gap == 1 || n >= gap * 0x10_0000_0000_0000
            &&& n < gap * 0x20_0000_0000_0000
            &&& 2 * (text - v) <= double_gap(v)
            &&& 2 * (v - text) <= double_gap(v)
        }),
{
    lemma_gap_bounds(n);
    lemma_gap_range(n);
    let gap = double_gap(n) as int;
    let q = n as int / gap;
    vstd::arithmetic::div_mod::lemma_fundamental_div_mod(n as int, gap);
    vstd::arithmetic::div_mod::lemma_mod_multiples_basic(q, gap);
    vstd::arithmetic::div_mod::lemma_mod_multiples_basic(q + 1, gap);
    vstd::arithmetic::mul::lemma_mul_is_commutative(gap, q);
    vstd::arithmetic::mul::lemma_mul_is_distributive_add_other_way(gap, q, 1);
    lemma_text_is_near(nearest_double(n), 19);
}

proof fn lemma_gap_range(n: nat)
    ensures
        double_gap(n) == 1 || n >= double_gap(n) * 0x10_0000_0000_0000,
        n < double_gap(n) * 0x20_0000_0000_0000,
    decreases n,
{
    if n >= 0x20_0000_0000_0000 {
        lemma_gap_range(n / 2);
    }
}

proof fn lemma_text_is_near(v: nat, exponent: nat)
    ensures
        2 * (shortest_decimal(v, exponent) - v) <= double_gap(v),
        2 * (v - shortest_decimal(v, exponent)) <= double_gap(v),
    decreases exponent,
{
    lemma_gap_at_least_one(v);
    if exponent > 0 {
        lemma_power_of_ten_positive(exponent);
        vstd::arithmetic::div_mod::lemma_mod_bound(v as int, power_of_ten(exponent) as int);
        vstd::arithmetic::div_mod::lemma_mod_decreases(v, power_of_ten(exponent));
        lemma_text_is_near(v, (exponent - 1) as nat);
    }
}

proof fn lemma_gap_at_least_one(n: nat)
    ensures
        1 <= double_gap(n),
{
    lemma_gap_bounds(n);
}

/// A number that was read from text is kept as it was read.
pub proof fn law_read_number_is_kept(number: ParsedFloat)
    ensures
        float_serial(Float::Parsed(number)) == number.serial,
        float_text(Float::Parsed(number)) == number.text@,
{
}

} // verus!
