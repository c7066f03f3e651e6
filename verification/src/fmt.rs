//! Human-readable byte sizes.
//!
//! Sizes are shown and read with the precision of a double: a value with more
//! than 53 significant bits is first rounded to 53, ties to even.

use vstd::arithmetic::power::*;
use vstd::arithmetic::power2::*;
use vstd::prelude::*;

use crate::text::{
    ascii_digit, ascii_lower, ascii_lowered, chars_of, content_end, content_start, decimal_wide,
    digit_char, digit_value, digits, is_ascii_digit, quote, quoted, same_text, string_of,
    to_ascii_lowercase, trim, trimmed, white_space,
};

verus! {

/// The bound of what 53 bits can count.
pub const MANTISSA: u64 = 0x20_0000_0000_0000;

/// `n / d`, rounded to the nearest integer, ties to even.
pub open spec fn half_even(n: nat, d: nat) -> nat
    recommends
        d > 0,
{
    let q = n / d;
    let r = n % d;
    if 2 * r < d || (2 * r == d && q % 2 == 0) {
        q
    } else {
        q + 1
    }
}

/// How many bits `n` has beyond 53.
pub open spec fn excess_bits(n: nat) -> nat
    decreases n,
{
    if n < MANTISSA {
        0
    } else {
        1 + excess_bits(n / 2)
    }
}

/// `n` rounded to 53 significant bits.
pub open spec fn as_double(n: nat) -> nat {
    let unit = pow2(excess_bits(n));
    half_even(n, unit) * unit
}

/// `1024` to the power of `k`.
pub open spec fn kilo(k: nat) -> nat
    decreases k,
{
    if k == 0 {
        1
    } else {
        1024 * kilo((k - 1) as nat)
    }
}

/// The unit to show `size` in, from the unit `k` on: the largest that is not
/// larger than `size`, but none beyond PiB.
pub open spec fn unit_from(size: nat, k: nat) -> nat
    decreases 5 - k,
{
    if k < 5 && size >= kilo(k + 1) {
        unit_from(size, k + 1)
    } else {
        k
    }
}

pub open spec fn unit_name(k: nat) -> Seq<char> {
    if k == 0 {
        "B"@
    } else if k == 1 {
        "KiB"@
    } else if k == 2 {
        "MiB"@
    } else if k == 3 {
        "GiB"@
    } else if k == 4 {
        "TiB"@
    } else {
        "PiB"@
    }
}

/// `n / 1`, `n / 10` or `n / 100` in decimal, for 0, 1 or 2 places.
pub open spec fn fixed_text(n: nat, places: nat) -> Seq<char> {
    if places == 0 {
        digits(n)
    } else if places == 1 {
        digits(n / 10) + seq!['.', digit_char(n % 10)]
    } else {
        digits(n / 100) + seq!['.', digit_char(n / 10 % 10), digit_char(n % 10)]
    }
}

/// The unit to show `size` in: the largest that is not larger than `size`, or the
/// one above it where the number would be rounded to four digits.
pub open spec fn shown_unit(size: nat) -> nat {
    let k = unit_from(size, 0);
    if k < 5 && half_even(size, kilo(k)) >= 1000 {
        k + 1
    } else {
        k
    }
}

/// `size` in units of `d`, the last digit rounded to nearest, ties to even: with
/// as many places, up to two, as leave three digits after rounding.
pub open spec fn number_text(size: nat, d: nat) -> Seq<char> {
    if half_even(size * 100, d) < 1000 {
        fixed_text(half_even(size * 100, d), 2)
    } else if half_even(size * 10, d) < 1000 {
        fixed_text(half_even(size * 10, d), 1)
    } else {
        fixed_text(half_even(size, d), 0)
    }
}

/// How a size is shown: exact below 1024, else rounded to three digits.
pub open spec fn size_text(value: nat) -> Seq<char> {
    if value < 1024 {
        digits(value) + " B"@
    } else {
        let size = as_double(value);
        let k = shown_unit(size);
        number_text(size, kilo(k)) + " "@ + unit_name(k)
    }
}

fn rounded(n: u128, d: u128) -> (r: u128)
    requires
        0 < d <= 0x1_0000_0000_0000_0000,
        n < 0x1_0000_0000_0000_0000_0000,
    ensures
        r == half_even(n as nat, d as nat),
{
    let q = n / d;
    let rest = n % d;
    if 2 * rest < d || (2 * rest == d && q % 2 == 0) {
        q
    } else {
        q + 1
    }
}

fn to_double(n: u64) -> (r: u128)
    ensures
        r == as_double(n as nat),
        r <= 0x2_0000_0000_0000_0000,
{
    let mut rest: u64 = n;
    let mut unit: u128 = 1;
    let ghost mut e: nat = 0;
    proof {
        lemma2_to64();
    }
    while rest >= MANTISSA
        invariant
            unit == pow2(e),
            unit * rest <= n,
            unit >= 1,
            unit <= 4096,
            excess_bits(n as nat) == e + excess_bits(rest as nat),
        decreases rest,
    {
        proof {
            assert(unit < 2048) by (nonlinear_arith)
                requires
                    unit * rest <= n,
                    rest >= 0x20_0000_0000_0000,
                    n <= 0xffff_ffff_ffff_ffff,
            ;
            let half = rest / 2;
            assert((2 * unit) * half <= n) by (nonlinear_arith)
                requires
                    unit * rest <= n,
                    2 * half <= rest,
                    unit >= 1,
            ;
            lemma_pow2_unfold(e + 1);
            e = e + 1;
        }
        rest = rest / 2;
        unit = unit * 2;
    }
    assert(excess_bits(n as nat) == e);
    let q = rounded(n as u128, unit);
    proof {
        lemma_double_bound(n as nat, e);
        assert(q * unit <= 0x2_0000_0000_0000_0000) by (nonlinear_arith)
            requires
                q <= 0x20_0000_0000_0000,
                unit <= 4096,
        ;
    }
    q * unit
}

proof fn lemma_quotient_small(n: nat, e: nat)
    requires
        excess_bits(n) == e,
    ensures
        n / pow2(e) < MANTISSA,
    decreases n,
{
    if n < MANTISSA {
        lemma2_to64();
    } else {
        lemma_quotient_small(n / 2, (e - 1) as nat);
        lemma_pow2_unfold(e);
        lemma_pow2_pos((e - 1) as nat);
        vstd::arithmetic::div_mod::lemma_div_denominator(n as int, 2, pow2((e - 1) as nat) as int);
    }
}

proof fn lemma_double_bound(n: nat, e: nat)
    requires
        excess_bits(n) == e,
    ensures
        half_even(n, pow2(e)) <= MANTISSA,
{
    lemma_quotient_small(n, e);
    lemma_pow2_pos(e);
}

fn unit_text(k: usize) -> (r: &'static str)
    ensures
        r@ == unit_name(k as nat),
{
    if k == 0 {
        "B"
    } else if k == 1 {
        "KiB"
    } else if k == 2 {
        "MiB"
    } else if k == 3 {
        "GiB"
    } else if k == 4 {
        "TiB"
    } else {
        "PiB"
    }
}

fn digit(n: u128) -> (r: char)
    requires
        n < 10,
    ensures
        r == digit_char(n as nat),
{
    let code: u8 = n as u8 + 48;
    code as char
}

/// `1536` -> `"1.50 KiB"`. Keeps three digits so columns stay narrow: unit and
/// places are chosen by what the number is rounded to, so `1024000` is
/// `"0.98 MiB"` and does not take the four digits of `"1000 KiB"`. Only beyond
/// 999 PiB, for want of a larger unit, there are more.
#[verifier::spinoff_prover]
#[verifier::rlimit(50)]
pub fn bytes(value: u64) -> (r: String)
    ensures
        r@ == size_text(value as nat),
{
    if value < 1024 {
        let mut out = decimal_wide(value as u128);
        out.append(" B");
        return out;
    }
    let size = to_double(value);
    let mut d: u128 = 1;
    let mut k: usize = 0;
    proof {
        reveal_with_fuel(kilo, 7);
    }
    while k < 5 && size >= d * 1024
        invariant
            k <= 5,
            d == kilo(k as nat),
            d <= 0x4_0000_0000_0000,
            k == 0 ==> d == 1,
            k == 1 ==> d == 0x400,
            k == 2 ==> d == 0x10_0000,
            k == 3 ==> d == 0x4000_0000,
            k == 4 ==> d == 0x100_0000_0000,
            unit_from(size as nat, 0) == unit_from(size as nat, k as nat),
        decreases 5 - k,
    {
        assert(kilo((k + 1) as nat) == 1024 * kilo(k as nat));
        d = d * 1024;
        k = k + 1;
    }
    assert(k < 5 ==> kilo((k + 1) as nat) == 1024 * kilo(k as nat));
    if k < 5 && rounded(size, d) >= 1000 {
        d = d * 1024;
        k = k + 1;
    }
    let hundredths = rounded(size * 100, d);
    let tenths = rounded(size * 10, d);
    let mut out = if hundredths < 1000 {
        let mut text = decimal_wide(hundredths / 100);
        text.push('.');
        text.push(digit(hundredths / 10 % 10));
        text.push(digit(hundredths % 10));
        assert(text@ =~= fixed_text(hundredths as nat, 2));
        text
    } else if tenths < 1000 {
        let mut text = decimal_wide(tenths / 10);
        text.push('.');
        text.push(digit(tenths % 10));
        assert(text@ =~= fixed_text(tenths as nat, 1));
        text
    } else {
        decimal_wide(rounded(size, d))
    };
    out.append(" ");
    out.append(unit_text(k));
    out
}

/// How a size that may be unknown is shown.
pub open spec fn maybe_size_text(value: Option<u64>) -> Seq<char> {
    match value {
        Some(v) => size_text(v as nat),
        None => "\u{2014}"@,
    }
}

/// Same as [`bytes`], but renders an unknown size as a placeholder.
pub fn maybe_bytes(value: Option<u64>) -> (r: String)
    ensures
        r@ == maybe_size_text(value),
{
    match value {
        Some(v) => bytes(v),
        None => "\u{2014}".to_owned(),
    }
}

/// Why a text is not a size.
#[derive(Debug, PartialEq, Eq)]
pub enum SizeError {
    Invalid { text: String },
    UnknownUnit { unit: String, text: String },
}

/// What a [`SizeError`] says.
pub enum SizeFault {
    Invalid { text: Seq<char> },
    UnknownUnit { unit: Seq<char>, text: Seq<char> },
}

impl View for SizeError {
    type V = SizeFault;

    open spec fn view(&self) -> SizeFault {
        match *self {
            SizeError::Invalid { text } => SizeFault::Invalid { text: text@ },
            SizeError::UnknownUnit { unit, text } => SizeFault::UnknownUnit {
                unit: unit@,
                text: text@,
            },
        }
    }
}

/// The wording of a fault, where `text` is the quoted size and `unit` the quoted
/// unit.
pub open spec fn size_wording(fault: SizeFault, text: Seq<char>, unit: Seq<char>) -> Seq<char> {
    match fault {
        SizeFault::Invalid { .. } => "invalid size "@ + text,
        SizeFault::UnknownUnit { .. } => "unknown size unit "@ + unit + " in "@ + text,
    }
}

/// The message of a fault.
pub open spec fn size_message(fault: SizeFault) -> Seq<char> {
    match fault {
        SizeFault::Invalid { text } => size_wording(fault, quoted(text), ""@),
        SizeFault::UnknownUnit { unit, text } => size_wording(fault, quoted(text), quoted(unit)),
    }
}

impl SizeError {
    /// The message, given the quoted size and the quoted unit.
    pub fn worded(&self, text: &str, unit: &str) -> (r: String)
        ensures
            r@ == size_wording(self@, text@, unit@),
    {
        match self {
            SizeError::Invalid { .. } => {
                let mut out = "invalid size ".to_owned();
                out.append(text);
                out
            },
            SizeError::UnknownUnit { .. } => {
                let mut out = "unknown size unit ".to_owned();
                out.append(unit);
                out.append(" in ");
                out.append(text);
                out
            },
        }
    }

    pub fn message(&self) -> (r: String)
        ensures
            r@ == size_message(self@),
    {
        match self {
            SizeError::Invalid { text } => self.worded(quote(text.as_str()).as_str(), ""),
            SizeError::UnknownUnit { unit, text } => self.worded(
                quote(text.as_str()).as_str(),
                quote(unit.as_str()).as_str(),
            ),
        }
    }
}

/// Both `.` and `,` separate the fraction.
pub open spec fn is_point(c: char) -> bool {
    c == '.' || c == ','
}

/// The length of the number at the start of `text`.
pub open spec fn number_length(text: Seq<char>) -> int
    decreases text.len(),
{
    if text.len() == 0 || !(ascii_digit(text[0]) || is_point(text[0])) {
        0
    } else {
        1 + number_length(text.skip(1))
    }
}

/// Position of the first point, or the length.
pub open spec fn point_at(number: Seq<char>) -> int
    decreases number.len(),
{
    if number.len() == 0 || is_point(number[0]) {
        0
    } else {
        1 + point_at(number.skip(1))
    }
}

/// The number has at least one digit and at most one point.
pub open spec fn is_decimal(number: Seq<char>) -> bool {
    let p = point_at(number);
    let fraction = number.skip(p + 1);
    if p == number.len() {
        number.len() > 0
    } else {
        number.len() > 1 && point_at(fraction) == fraction.len()
    }
}

/// The digits before the point.
pub open spec fn whole_digits(number: Seq<char>) -> Seq<u8> {
    digit_values(number.take(point_at(number)))
}

/// The digits behind the point.
pub open spec fn fraction_digits(number: Seq<char>) -> Seq<u8> {
    if point_at(number) == number.len() {
        seq![]
    } else {
        digit_values(number.skip(point_at(number) + 1))
    }
}

pub open spec fn digit_values(text: Seq<char>) -> Seq<u8> {
    text.map_values(|c: char| digit_value(c) as u8)
}

/// The value of a sequence of decimal digits.
pub open spec fn decimal_value(ds: Seq<u8>) -> nat
    decreases ds.len(),
{
    if ds.len() == 0 {
        0
    } else {
        decimal_value(ds.drop_last()) * 10 + ds.last() as nat
    }
}

/// Ten to the power of `k`.
pub open spec fn ten_to(k: nat) -> nat
    decreases k,
{
    if k == 0 {
        1
    } else {
        10 * ten_to((k - 1) as nat)
    }
}

/// `n / d`, scaled by two to the power of `s`, has exactly 53 bits before the
/// binary point.
pub open spec fn is_scale(n: nat, d: nat, s: int) -> bool {
    if s >= 0 {
        0x10_0000_0000_0000 * d <= n * pow2(s as nat) < MANTISSA * d
    } else {
        0x10_0000_0000_0000 * (d * pow2((-s) as nat)) <= n < MANTISSA * (d * pow2((-s) as nat))
    }
}

/// `n / d`, scaled by two to the power of `s` and rounded, ties to even.
pub open spec fn mantissa(n: nat, d: nat, s: int) -> nat {
    if s >= 0 {
        half_even(n * pow2(s as nat), d)
    } else {
        half_even(n, d * pow2((-s) as nat))
    }
}

/// `m` times two to the power of `-s`, rounded down.
pub open spec fn unscaled(m: nat, s: int) -> nat {
    if s >= 0 {
        m / pow2(s as nat)
    } else {
        m * pow2((-s) as nat)
    }
}

/// The double nearest to `n / d`, times `factor`, rounded down.
pub open spec fn double_times(n: nat, d: nat, factor: nat) -> nat {
    if n == 0 {
        0
    } else {
        let s = choose|s: int| #[trigger] is_scale(n, d, s);
        unscaled(mantissa(n, d, s) * factor, s)
    }
}

/// The exponent of two that a size suffix stands for. Suffixes are binary.
pub open spec fn suffix_power(suffix: Seq<char>) -> Option<nat> {
    if suffix == ""@ || suffix == "b"@ {
        Some(0)
    } else if suffix == "k"@ || suffix == "kb"@ || suffix == "kib"@ {
        Some(10)
    } else if suffix == "m"@ || suffix == "mb"@ || suffix == "mib"@ {
        Some(20)
    } else if suffix == "g"@ || suffix == "gb"@ || suffix == "gib"@ {
        Some(30)
    } else if suffix == "t"@ || suffix == "tb"@ || suffix == "tib"@ {
        Some(40)
    } else {
        None
    }
}

/// What `input` means as a number of bytes; more than can be counted is the most
/// that can be.
pub open spec fn size_of(input: Seq<char>) -> Result<nat, SizeFault> {
    let text = trimmed(input);
    let number = text.take(number_length(text));
    let suffix = ascii_lowered(trimmed(text.skip(number_length(text))));
    if !is_decimal(number) {
        Err(SizeFault::Invalid { text: input })
    } else {
        match suffix_power(suffix) {
            None => Err(SizeFault::UnknownUnit { unit: suffix, text: input }),
            Some(k) => {
                let fraction = fraction_digits(number);
                let d = ten_to(fraction.len());
                let n = decimal_value(whole_digits(number)) * d + decimal_value(fraction);
                let v = double_times(n, d, pow2(k));
                Ok(
                    if v > u64::MAX {
                        u64::MAX as nat
                    } else {
                        v
                    },
                )
            },
        }
    }
}

proof fn lemma_ten_pos(k: nat)
    ensures
        ten_to(k) > 0,
    decreases k,
{
    if k > 0 {
        lemma_ten_pos((k - 1) as nat);
    }
}

/// All digits lie below ten.
pub open spec fn are_digits(ds: Seq<u8>) -> bool {
    forall|i: int| 0 <= i < ds.len() ==> #[trigger] ds[i] < 10
}

proof fn lemma_decimal_bound(ds: Seq<u8>)
    requires
        are_digits(ds),
    ensures
        decimal_value(ds) < ten_to(ds.len()),
    decreases ds.len(),
{
    if ds.len() > 0 {
        assert(are_digits(ds.drop_last()));
        lemma_decimal_bound(ds.drop_last());
        assert(ds.last() == ds[ds.len() - 1]);
    }
}

proof fn lemma_decimal_grows(ds: Seq<u8>, i: int)
    requires
        0 <= i <= ds.len(),
    ensures
        decimal_value(ds.take(i)) <= decimal_value(ds),
    decreases ds.len() - i,
{
    if i < ds.len() {
        lemma_decimal_grows(ds, i + 1);
        assert(ds.take(i + 1).drop_last() =~= ds.take(i));
    } else {
        assert(ds.take(i) =~= ds);
    }
}

/// Twice the fraction `ds`: what is carried out to the left, and what stays.
fn doubled(ds: &Vec<u8>) -> (r: (u8, Vec<u8>))
    requires
        are_digits(ds@),
    ensures
        r.0 <= 1,
        r.1.len() == ds.len(),
        are_digits(r.1@),
        2 * decimal_value(ds@) == r.0 * ten_to(ds@.len()) + decimal_value(r.1@),
{
    let carry: u8 = if ds.len() > 0 && ds[0] >= 5 {
        1
    } else {
        0
    };
    let mut out: Vec<u8> = Vec::new();
    let mut i: usize = 0;
    let ghost mut next: nat = carry as nat;
    assert(ds@.take(0) =~= Seq::<u8>::empty());
    while i < ds.len()
        invariant
            0 <= i <= ds.len(),
            are_digits(ds@),
            out.len() == i,
            are_digits(out@),
            carry <= 1,
            next == if i < ds.len() && ds@[i as int] >= 5 {
                1nat
            } else {
                0nat
            },
            2 * decimal_value(ds@.take(i as int)) + next == carry * ten_to(i as nat)
                + decimal_value(out@),
        decreases ds.len() - i,
    {
        let here: u8 = ds[i];
        assert(ds@[i as int] < 10);
        let incoming: u8 = if i + 1 < ds.len() && ds[i + 1] >= 5 {
            1
        } else {
            0
        };
        let kept: u8 = if here >= 5 {
            2 * here - 10
        } else {
            2 * here
        };
        let ghost before = out@;
        out.push(kept + incoming);
        proof {
            assert(out@.drop_last() =~= before);
            let part = ds@.take(i + 1);
            assert(part.drop_last() =~= ds@.take(i as int));
            assert(part.last() == here);
            assert(ten_to((i + 1) as nat) == 10 * ten_to(i as nat));
            assert(carry * (10 * ten_to(i as nat)) == 10 * (carry * ten_to(i as nat)))
                by (nonlinear_arith);
            next = incoming as nat;
        }
        i = i + 1;
    }
    assert(ds@.take(ds@.len() as int) =~= ds@);
    (carry, out)
}

fn two_to(k: u32) -> (r: u128)
    requires
        k < 128,
    ensures
        r == pow2(k as nat),
        r > 0,
{
    let mut out: u128 = 1;
    let mut i: u32 = 0;
    proof {
        lemma2_to64();
    }
    while i < k
        invariant
            0 <= i <= k,
            k < 128,
            out == pow2(i as nat),
            out > 0,
        decreases k - i,
    {
        proof {
            lemma_pow2_unfold((i + 1) as nat);
            lemma_pow2_strictly_increases((i + 1) as nat, 128);
            lemma2_to64_rest();
            lemma_pow2_adds(64, 64);
        }
        out = out * 2;
        i = i + 1;
    }
    out
}

/// The value of `ds`, or `None` from two to the power of 64 on.
fn whole_value(ds: &Vec<u8>) -> (r: Option<u64>)
    requires
        are_digits(ds@),
    ensures
        r is Some <==> decimal_value(ds@) <= u64::MAX,
        r matches Some(v) ==> v == decimal_value(ds@),
{
    let mut value: u64 = 0;
    let mut i: usize = 0;
    assert(ds@.take(0) =~= Seq::<u8>::empty());
    while i < ds.len()
        invariant
            0 <= i <= ds.len(),
            are_digits(ds@),
            value == decimal_value(ds@.take(i as int)),
        decreases ds.len() - i,
    {
        proof {
            assert(ds@.take(i + 1).drop_last() =~= ds@.take(i as int));
            lemma_decimal_grows(ds@, i + 1);
        }
        assert(ds@[i as int] < 10);
        let wide: u128 = value as u128 * 10 + ds[i] as u128;
        if wide > 0xffff_ffff_ffff_ffff {
            return None;
        }
        value = wide as u64;
        i = i + 1;
    }
    assert(ds@.take(ds@.len() as int) =~= ds@);
    Some(value)
}

/// The first `j` binary digits of the fraction `ds`, and whether any follow.
fn binary_fraction(ds: &Vec<u8>, j: u32) -> (r: (u128, bool))
    requires
        are_digits(ds@),
        j <= 96,
    ensures
        r.0 < pow2(j as nat),
        ({
            let whole = decimal_value(ds@) * pow2(j as nat);
            let rest = whole - r.0 * ten_to(ds@.len());
            &&& 0 <= rest < ten_to(ds@.len())
            &&& r.1 == (rest != 0)
        }),
{
    let mut cur: Vec<u8> = Vec::new();
    let mut c: usize = 0;
    while c < ds.len()
        invariant
            0 <= c <= ds.len(),
            cur@ =~= ds@.take(c as int),
        decreases ds.len() - c,
    {
        cur.push(ds[c]);
        c = c + 1;
    }
    assert(cur@ =~= ds@);
    let mut bits: u128 = 0;
    let mut t: u32 = 0;
    let ghost d = ten_to(ds@.len());
    let ghost start = decimal_value(ds@);
    proof {
        lemma2_to64();
        assert(start * pow2(0) == start) by (nonlinear_arith)
            requires
                pow2(0) == 1,
        ;
    }
    while t < j
        invariant
            0 <= t <= j,
            j <= 96,
            are_digits(cur@),
            cur.len() == ds.len(),
            d == ten_to(ds@.len()),
            bits < pow2(t as nat),
            start * pow2(t as nat) == bits * d + decimal_value(cur@),
        decreases j - t,
    {
        proof {
            lemma_pow2_unfold((t + 1) as nat);
            lemma_pow2_strictly_increases(t as nat, 97);
            lemma_pow2_adds(64, 33);
            lemma2_to64();
            lemma2_to64_rest();
        }
        let ghost was = decimal_value(cur@);
        let ghost held = bits;
        let (carry, next) = doubled(&cur);
        cur = next;
        bits = bits * 2 + carry as u128;
        proof {
            let p = pow2(t as nat);
            assert(start * (2 * p) == 2 * (start * p)) by (nonlinear_arith);
            assert((held * 2 + carry) * d == 2 * (held * d) + carry * d) by (nonlinear_arith);
        }
        t = t + 1;
    }
    proof {
        lemma_decimal_bound(cur@);
    }
    let mut more = false;
    let mut i: usize = 0;
    assert(cur@.take(0) =~= Seq::<u8>::empty());
    while i < cur.len()
        invariant
            0 <= i <= cur.len(),
            more == (decimal_value(cur@.take(i as int)) != 0),
        decreases cur.len() - i,
    {
        assert(cur@.take(i + 1).drop_last() =~= cur@.take(i as int));
        if cur[i] != 0 {
            more = true;
        }
        i = i + 1;
    }
    assert(cur@.take(cur@.len() as int) =~= cur@);
    (bits, more)
}

/// Rounding does not change when a quotient is known through a scaled one.
proof fn lemma_half_even_scaled(n: nat, d: nat, a: nat, m: nat, c: nat, rest: nat, e: nat, h: nat)
    requires
        a > 0,
        c > 0,
        h > 0,
        e == 2 * h,
        n * a == m * c + rest,
        rest < c,
        d * a == c * e,
    ensures
        d > 0,
        half_even(n, d) == ({
            let q = m / e;
            let r = m % e;
            if r < h || (r == h && rest == 0 && q % 2 == 0) {
                q
            } else {
                q + 1
            }
        }),
{
    let q = (m / e) as int;
    let r = (m % e) as int;
    assert(d > 0) by (nonlinear_arith)
        requires
            d * a == c * e,
            c > 0,
            e > 0,
            d >= 0,
    ;
    vstd::arithmetic::div_mod::lemma_fundamental_div_mod(m as int, e as int);
    assert(m == e * q + r);
    let left = n - q * d;
    assert(left * a == r * c + rest) by (nonlinear_arith)
        requires
            left == n - q * d,
            n * a == m * c + rest,
            m == e * q + r,
            d * a == c * e,
    ;
    assert(0 <= left) by (nonlinear_arith)
        requires
            left * a == r * c + rest,
            r >= 0,
            rest >= 0,
            c > 0,
            a > 0,
    ;
    assert(r * c + rest < c * e) by (nonlinear_arith)
        requires
            r <= e - 1,
            rest < c,
            c > 0,
    ;
    assert(left < d) by (nonlinear_arith)
        requires
            left * a == r * c + rest,
            r * c + rest < c * e,
            d * a == c * e,
            a > 0,
    ;
    assert(n == q * d + left);
    vstd::arithmetic::div_mod::lemma_fundamental_div_mod_converse(n as int, d as int, q, left);
    assert(n / d == q && n % d == left);
    if r < h {
        assert(2 * left < d) by (nonlinear_arith)
            requires
                left * a == r * c + rest,
                r <= h - 1,
                rest < c,
                d * a == c * e,
                e == 2 * h,
                a > 0,
                c > 0,
        ;
    } else if r == h {
        assert(rest == 0 ==> 2 * left == d) by (nonlinear_arith)
            requires
                left * a == r * c + rest,
                r == h,
                d * a == c * e,
                e == 2 * h,
                a > 0,
        ;
        assert(rest > 0 ==> 2 * left > d) by (nonlinear_arith)
            requires
                left * a == r * c + rest,
                r == h,
                d * a == c * e,
                e == 2 * h,
                a > 0,
        ;
    } else {
        assert(2 * left > d) by (nonlinear_arith)
            requires
                left * a == r * c + rest,
                r >= h + 1,
                rest >= 0,
                c > 0,
                d * a == c * e,
                e == 2 * h,
                a > 0,
        ;
    }
}

/// [`is_scale`] without a case distinction.
proof fn lemma_scale_form(n: nat, d: nat, s: int, t: nat)
    requires
        s + t >= 0,
    ensures
        is_scale(n, d, s) <==> 0x10_0000_0000_0000 * (d * pow2(t)) <= n * pow2((s + t) as nat)
            < 0x20_0000_0000_0000 * (d * pow2(t)),
{
    let u = (s + t) as nat;
    lemma_pow2_pos(t);
    lemma_pow2_pos(u);
    if s >= 0 {
        lemma_pow2_adds(s as nat, t);
        let (a, b, c) = (pow2(s as nat), pow2(t), pow2(u));
        assert(n * c == (n * a) * b) by (nonlinear_arith)
            requires
                c == a * b,
        ;
        let x = n * a;
        assert((0x10_0000_0000_0000 * d <= x) <==> (0x10_0000_0000_0000 * (d * b) <= x * b))
            by (nonlinear_arith)
            requires
                b > 0,
        ;
        assert((x < 0x20_0000_0000_0000 * d) <==> (x * b < 0x20_0000_0000_0000 * (d * b)))
            by (nonlinear_arith)
            requires
                b > 0,
        ;
    } else {
        let v = (-s) as nat;
        lemma_pow2_adds(v, u);
        let (a, b, c) = (pow2(v), pow2(u), pow2(t));
        assert(d * c == (d * a) * b) by (nonlinear_arith)
            requires
                c == a * b,
        ;
        let x = d * a;
        assert((0x10_0000_0000_0000 * x <= n) <==> (0x10_0000_0000_0000 * (x * b) <= n * b))
            by (nonlinear_arith)
            requires
                b > 0,
        ;
        assert((n < 0x20_0000_0000_0000 * x) <==> (n * b < 0x20_0000_0000_0000 * (x * b)))
            by (nonlinear_arith)
            requires
                b > 0,
        ;
    }
}

/// There is at most one scale.
proof fn lemma_scale_unique(n: nat, d: nat, s: int, t: int)
    requires
        is_scale(n, d, s),
        is_scale(n, d, t),
    ensures
        s >= t,
{
    if s < t {
        let k: nat = if s < 0 {
            (-s) as nat
        } else {
            0
        };
        lemma_scale_form(n, d, s, k);
        lemma_scale_form(n, d, t, k);
        let (x, y) = ((s + k) as nat, (t + k) as nat);
        lemma_pow2_adds(x, (y - x) as nat);
        lemma_pow2_unfold((y - x) as nat);
        lemma_pow2_pos((y - x - 1) as nat);
        lemma_pow2_pos(x);
        let (p, q, r) = (pow2(x), pow2((y - x) as nat), pow2(y));
        assert(n * r >= 2 * (n * p)) by (nonlinear_arith)
            requires
                r == p * q,
                q >= 2,
        ;
    }
}

proof fn lemma_scale_up(n: nat, d: nat) -> (s: int)
    requires
        0 < n < 0x20_0000_0000_0000 * d,
    ensures
        s >= 0,
        is_scale(n, d, s),
    decreases 0x20_0000_0000_0000 * d - n,
{
    lemma2_to64();
    if n >= 0x10_0000_0000_0000 * d {
        assert(n * pow2(0) == n);
        0
    } else {
        let s = lemma_scale_up(2 * n, d);
        lemma_pow2_unfold((s + 1) as nat);
        assert(n * pow2((s + 1) as nat) == (2 * n) * pow2(s as nat)) by (nonlinear_arith)
            requires
                pow2((s + 1) as nat) == 2 * pow2(s as nat),
        ;
        s + 1
    }
}

proof fn lemma_scale_down(n: nat, d: nat) -> (s: int)
    requires
        d > 0,
        n >= 0x10_0000_0000_0000 * d,
    ensures
        s <= 0,
        is_scale(n, d, s),
    decreases n - d,
{
    lemma2_to64();
    if n < 0x20_0000_0000_0000 * d {
        assert(n * pow2(0) == n);
        0
    } else {
        let s = lemma_scale_down(n, 2 * d);
        let k = (-s) as nat;
        assert(is_scale(n, 2 * d, s));
        if s == 0 {
            assert(n * pow2(0) == n);
            assert((2 * d) * pow2(0) == 2 * d);
        }
        lemma_pow2_unfold(k + 1);
        assert(d * pow2(k + 1) == (2 * d) * pow2(k)) by (nonlinear_arith)
            requires
                pow2(k + 1) == 2 * pow2(k),
        ;
        s - 1
    }
}

/// The scale that [`double_times`] goes by.
proof fn lemma_double_times(n: nat, d: nat, factor: nat, s: int)
    requires
        n > 0,
        is_scale(n, d, s),
    ensures
        double_times(n, d, factor) == unscaled(mantissa(n, d, s) * factor, s),
{
    let t = choose|t: int| #[trigger] is_scale(n, d, t);
    lemma_scale_unique(n, d, t, s);
    lemma_scale_unique(n, d, s, t);
}

proof fn lemma_mantissa_range(n: nat, d: nat, s: int)
    requires
        d > 0,
        is_scale(n, d, s),
    ensures
        0x10_0000_0000_0000 <= mantissa(n, d, s) <= 0x20_0000_0000_0000,
{
    let (x, y) = if s >= 0 {
        (n * pow2(s as nat), d)
    } else {
        (n, d * pow2((-s) as nat))
    };
    if s < 0 {
        lemma_pow2_pos((-s) as nat);
        assert(d * pow2((-s) as nat) > 0) by (nonlinear_arith)
            requires
                d > 0,
                pow2((-s) as nat) > 0,
        ;
    }
    let q = x / y;
    vstd::arithmetic::div_mod::lemma_fundamental_div_mod(x as int, y as int);
    assert(q >= 0x10_0000_0000_0000) by (nonlinear_arith)
        requires
            x == y * q + x % y,
            x % y < y,
            x >= 0x10_0000_0000_0000 * y,
            y > 0,
    ;
    assert(q < 0x20_0000_0000_0000) by (nonlinear_arith)
        requires
            x == y * q + x % y,
            x % y >= 0,
            x < 0x20_0000_0000_0000 * y,
            y > 0,
    ;
}

/// From two to the power of 64 on, nothing can be counted any more.
proof fn lemma_double_saturates(n: nat, d: nat, factor: nat)
    requires
        d > 0,
        n >= 0x1_0000_0000_0000_0000 * d,
        factor >= 1,
    ensures
        double_times(n, d, factor) > u64::MAX,
{
    assert(n > 0);
    let s = lemma_scale_down(n, d);
    lemma_double_times(n, d, factor, s);
    lemma_mantissa_range(n, d, s);
    let k = (-s) as nat;
    let p = pow2(k);
    lemma2_to64();
    if s == 0 {
        assert(n * pow2(0) == n);
        assert(false);
    }
    assert(p > 0x800) by (nonlinear_arith)
        requires
            n < 0x20_0000_0000_0000 * (d * p),
            n >= 0x1_0000_0000_0000_0000 * d,
            d > 0,
    ;
    if k < 12 {
        if k < 11 {
            lemma_pow2_strictly_increases(k, 11);
        }
        assert(p == 2048);
        assert(false);
    }
    if k > 12 {
        lemma_pow2_strictly_increases(12, k);
    }
    let m = mantissa(n, d, s);
    assert((m * factor) * p >= 0x1_0000_0000_0000_0000) by (nonlinear_arith)
        requires
            m >= 0x10_0000_0000_0000,
            factor >= 1,
            p >= 4096,
    ;
}

/// Far below one byte, nothing is left.
proof fn lemma_double_vanishes(n: nat, d: nat, factor: nat)
    requires
        d > 0,
        n * pow2(96) < 0x20_0000_0000_0000 * d,
        factor <= 0x100_0000_0000,
    ensures
        double_times(n, d, factor) == 0,
{
    if n > 0 {
        lemma2_to64();
        lemma2_to64_rest();
        lemma_pow2_adds(64, 32);
        let wide = pow2(96);
        assert(n < 0x20_0000_0000_0000 * d) by (nonlinear_arith)
            requires
                n * wide < 0x20_0000_0000_0000 * d,
                wide >= 1,
        ;
        let s = lemma_scale_up(n, d);
        lemma_double_times(n, d, factor, s);
        lemma_mantissa_range(n, d, s);
        let p = pow2(s as nat);
        if s < 96 {
            lemma_pow2_adds(s as nat, (96 - s) as nat);
            lemma_pow2_unfold((96 - s) as nat);
            lemma_pow2_pos((96 - s - 1) as nat);
            let q = pow2((96 - s) as nat);
            assert(n * wide >= 2 * (n * p)) by (nonlinear_arith)
                requires
                    wide == p * q,
                    q >= 2,
            ;
            assert(false);
        }
        if s > 96 {
            lemma_pow2_strictly_increases(96, s as nat);
        }
        let m = mantissa(n, d, s);
        assert(m * factor < p) by (nonlinear_arith)
            requires
                m <= 0x20_0000_0000_0000,
                factor <= 0x100_0000_0000,
                p >= 0x1_0000_0000_0000_0000_0000_0000,
        ;
        vstd::arithmetic::div_mod::lemma_basic_div((m * factor) as int, p as int);
    }
}

/// `n / d` as a double, times two to the power of `k`, rounded down and kept to
/// what can be counted. The quotient is known by its first binary digits:
/// `top` up to the `j`th behind the binary point, and whether more follow.
fn finish_size(top: u128, more: bool, j: u32, k: u32, Ghost(n): Ghost<nat>, Ghost(d): Ghost<nat>) -> (r:
    u64)
    requires
        0x20_0000_0000_0000 <= top < 0x1000_0000_0000_0000_0000_0000_0000_0000,
        top < pow2((j + 64) as nat),
        j <= 96,
        k <= 40,
        d > 0,
        ({
            let rest = n * pow2(j as nat) - top * d;
            &&& 0 <= rest < d
            &&& more == (rest != 0)
        }),
    ensures
        ({
            let v = double_times(n, d, pow2(k as nat));
            r == if v > u64::MAX {
                u64::MAX as nat
            } else {
                v
            }
        }),
{
    let mut e: u32 = 0;
    let mut unit: u128 = 1;
    proof {
        lemma2_to64();
        lemma2_to64_rest();
    }
    while top / unit >= 0x20_0000_0000_0000
        invariant
            0x20_0000_0000_0000 <= top < 0x1000_0000_0000_0000_0000_0000_0000_0000,
            unit == pow2(e as nat),
            unit >= 1,
            unit <= top,
            e <= 128,
            e > 0 ==> 0x10_0000_0000_0000 * unit <= top,
            0x10_0000_0000_0000 * unit <= top,
        decreases top - unit,
    {
        proof {
            let q = (top / unit) as int;
            vstd::arithmetic::div_mod::lemma_fundamental_div_mod(top as int, unit as int);
            assert(0x20_0000_0000_0000 * unit <= top) by (nonlinear_arith)
                requires
                    top == unit * q + top % unit,
                    top % unit >= 0,
                    q >= 0x20_0000_0000_0000,
                    unit >= 1,
            ;
            lemma_pow2_unfold((e + 1) as nat);
            if e >= 76 {
                if e > 76 {
                    lemma_pow2_strictly_increases(76, e as nat);
                }
                lemma2_to64();
                lemma2_to64_rest();
                lemma_pow2_adds(64, 12);
                assert(unit >= 0x1000_0000_0000_0000_0000);
                assert(false);
            }
        }
        unit = unit * 2;
        e = e + 1;
    }
    let q = top / unit;
    let r = top % unit;
    let ghost rest = (n * pow2(j as nat) - top * d) as nat;
    let ghost s = j - e;
    proof {
        let (t, u, big) = (top as int, unit as int, 0x20_0000_0000_0000int);
        vstd::arithmetic::div_mod::lemma_fundamental_div_mod(t, u);
        assert(e > 0) by {
            if e == 0 {
                assert(u == 1);
                assert(t / 1 == t);
            }
        }
        assert(t < big * u) by (nonlinear_arith)
            requires
                t == u * (t / u) + t % u,
                t % u < u,
                t / u < big,
                u >= 1,
        ;
        // The scale is the difference of the two counts.
        lemma_scale_form(n, d, s, e as nat);
        let p = n * pow2(j as nat);
        assert(0x10_0000_0000_0000 * (d * u) <= p) by (nonlinear_arith)
            requires
                p >= t * d,
                0x10_0000_0000_0000 * u <= t,
                d > 0,
        ;
        assert(p < big * (d * u)) by (nonlinear_arith)
            requires
                p < t * d + d,
                t + 1 <= big * u,
                d > 0,
        ;
        assert(is_scale(n, d, s));
        assert(n > 0) by {
            if n == 0 {
                assert(n * pow2(j as nat) == 0);
                assert(0x10_0000_0000_0000 * (d * u) > 0) by (nonlinear_arith)
                    requires
                        d > 0,
                        u >= 1,
                ;
            }
        }
        lemma_double_times(n, d, pow2(k as nat), s);
        lemma_mantissa_range(n, d, s);
        // Rounding goes by the digits cut off.
        lemma_pow2_unfold(e as nat);
        let h = pow2((e - 1) as nat);
        lemma_pow2_pos((e - 1) as nat);
        assert(unit == 2 * h);
        if s >= 0 {
            let a = pow2(e as nat);
            lemma_pow2_adds(s as nat, e as nat);
            let x = n * pow2(s as nat);
            assert(x * a == n * pow2(j as nat)) by (nonlinear_arith)
                requires
                    x == n * pow2(s as nat),
                    pow2(j as nat) == pow2(s as nat) * a,
            ;
            lemma_half_even_scaled(x, d, a, top as nat, d, rest, unit as nat, h);
        } else {
            let a = pow2(j as nat);
            let v = (-s) as nat;
            lemma_pow2_adds(v, j as nat);
            lemma_pow2_pos(j as nat);
            let y = d * pow2(v);
            assert(y * a == d * unit) by (nonlinear_arith)
                requires
                    y == d * pow2(v),
                    unit as int == pow2(v) * a,
            ;
            lemma_half_even_scaled(n, y, a, top as nat, d, rest, unit as nat, h);
        }
        // The exponent stays small.
        lemma_pow2_adds(52, e as nat);
        if 52 + e >= j + 64 {
            if 52 + e > j + 64 {
                lemma_pow2_strictly_increases((j + 64) as nat, (52 + e) as nat);
            }
            assert(false);
        }
    }
    let half = unit / 2;
    let m: u128 = if r < half || (r == half && !more && q % 2 == 0) {
        q
    } else {
        q + 1
    };
    assert(m == mantissa(n, d, s));
    let factor = two_to(k);
    proof {
        if k < 40 {
            lemma_pow2_strictly_increases(k as nat, 40);
        }
        assert(m * factor <= 0x20_0000_0000_0000 * 0x100_0000_0000) by (nonlinear_arith)
            requires
                m <= 0x20_0000_0000_0000,
                factor <= 0x100_0000_0000,
        ;
    }
    let product: u128 = m * factor;
    let v: u128 = if j >= e {
        product / two_to(j - e)
    } else {
        let up = two_to(e - j);
        proof {
            let x = (e - j) as nat;
            if x < 12 {
                lemma_pow2_strictly_increases(x, 12);
            }
            assert(product * up <= 0x20_0000_0000_0000 * 0x100_0000_0000 * 4096) by (nonlinear_arith)
                requires
                    product <= 0x20_0000_0000_0000 * 0x100_0000_0000,
                    up <= 4096,
            ;
        }
        product * up
    };
    if v > 0xffff_ffff_ffff_ffff {
        0xffff_ffff_ffff_ffff
    } else {
        v as u64
    }
}

/// The number with the digits `whole` before and `fraction` behind the point, as
/// a double, times two to the power of `k`, kept to what can be counted.
fn decimal_size(whole: &Vec<u8>, fraction: &Vec<u8>, k: u32) -> (r: u64)
    requires
        are_digits(whole@),
        are_digits(fraction@),
        k <= 40,
    ensures
        ({
            let d = ten_to(fraction@.len());
            let n = decimal_value(whole@) * d + decimal_value(fraction@);
            let v = double_times(n, d, pow2(k as nat));
            r == if v > u64::MAX {
                u64::MAX as nat
            } else {
                v
            }
        }),
{
    let ghost d = ten_to(fraction@.len());
    let ghost f = decimal_value(fraction@);
    let ghost w = decimal_value(whole@);
    let ghost n = w * d + f;
    proof {
        lemma_ten_pos(fraction@.len());
        lemma_decimal_bound(fraction@);
        lemma_pow2_pos(k as nat);
        lemma2_to64();
        lemma2_to64_rest();
        if k < 40 {
            lemma_pow2_strictly_increases(k as nat, 40);
        }
    }
    match whole_value(whole) {
        None => {
            proof {
                assert(n >= 0x1_0000_0000_0000_0000 * d) by (nonlinear_arith)
                    requires
                        n == w * d + f,
                        w >= 0x1_0000_0000_0000_0000,
                        f >= 0,
                        d > 0,
                ;
                lemma_double_saturates(n, d, pow2(k as nat));
            }
            0xffff_ffff_ffff_ffff
        },
        Some(value) => {
            if value == 0 {
                let (bits, more) = binary_fraction(fraction, 96);
                proof {
                    lemma_pow2_adds(64, 32);
                    lemma_pow2_strictly_increases(96, 160);
                    assert(w * d == 0) by (nonlinear_arith)
                        requires
                            w == 0,
                    ;
                }
                if bits < 0x20_0000_0000_0000 {
                    proof {
                        let p = n * pow2(96);
                        assert(p < 0x20_0000_0000_0000 * d) by (nonlinear_arith)
                            requires
                                p - bits * d < d,
                                bits + 1 <= 0x20_0000_0000_0000,
                                d > 0,
                        ;
                        lemma_double_vanishes(n, d, pow2(k as nat));
                    }
                    0
                } else {
                    finish_size(bits, more, 96, k, Ghost(n), Ghost(d))
                }
            } else {
                let (bits, more) = binary_fraction(fraction, 60);
                proof {
                    lemma_pow2_adds(60, 64);
                    lemma_pow2_adds(64, 60);
                    assert(value * 0x1000_0000_0000_0000 + bits < 0x1_0000_0000_0000_0000
                        * 0x1000_0000_0000_0000) by (nonlinear_arith)
                        requires
                            value <= 0xffff_ffff_ffff_ffff,
                            bits < 0x1000_0000_0000_0000,
                    ;
                }
                let top: u128 = value as u128 * 0x1000_0000_0000_0000 + bits;
                proof {
                    let p = pow2(60);
                    assert(n * p - top * d == f * p - bits * d) by (nonlinear_arith)
                        requires
                            n == w * d + f,
                            top == w * p + bits,
                    ;
                }
                finish_size(top, more, 60, k, Ghost(n), Ghost(d))
            }
        },
    }
}

proof fn lemma_number_length(text: Seq<char>, i: int)
    requires
        0 <= i <= text.len(),
        forall|k: int| 0 <= k < i ==> ascii_digit(#[trigger] text[k]) || is_point(text[k]),
        i < text.len() ==> !(ascii_digit(text[i]) || is_point(text[i])),
    ensures
        number_length(text) == i,
    decreases i,
{
    if i > 0 {
        assert(ascii_digit(text[0]) || is_point(text[0]));
        let rest = text.skip(1);
        assert forall|k: int| 0 <= k < i - 1 implies ascii_digit(#[trigger] rest[k]) || is_point(
            rest[k],
        ) by {
            assert(rest[k] == text[k + 1]);
        }
        lemma_number_length(rest, i - 1);
    }
}

proof fn lemma_point_at(number: Seq<char>, i: int)
    requires
        0 <= i <= number.len(),
        forall|k: int| 0 <= k < i ==> !is_point(#[trigger] number[k]),
        i < number.len() ==> is_point(number[i]),
    ensures
        point_at(number) == i,
    decreases i,
{
    if i > 0 {
        assert(!is_point(number[0]));
        let rest = number.skip(1);
        assert forall|k: int| 0 <= k < i - 1 implies !is_point(#[trigger] rest[k]) by {
            assert(rest[k] == number[k + 1]);
        }
        lemma_point_at(rest, i - 1);
    }
}

/// The position of the first point in `chars[from..to]`, or `to`.
fn find_point(chars: &Vec<char>, from: usize, to: usize) -> (r: usize)
    requires
        from <= to <= chars.len(),
    ensures
        from <= r <= to,
        r - from == point_at(chars@.subrange(from as int, to as int)),
        forall|k: int| from <= k < r ==> !is_point(#[trigger] chars@[k]),
        r < to ==> is_point(chars@[r as int]),
{
    let mut i: usize = from;
    while i < to && chars[i] != '.' && chars[i] != ','
        invariant
            from <= i <= to <= chars.len(),
            forall|k: int| from <= k < i ==> !is_point(#[trigger] chars@[k]),
        decreases to - i,
    {
        i = i + 1;
    }
    proof {
        let part = chars@.subrange(from as int, to as int);
        assert forall|k: int| 0 <= k < i - from implies !is_point(#[trigger] part[k]) by {
            assert(part[k] == chars@[k + from]);
        }
        lemma_point_at(part, i - from);
    }
    i
}

fn collect_digits(chars: &Vec<char>, from: usize, to: usize) -> (r: Vec<u8>)
    requires
        from <= to <= chars.len(),
        forall|k: int| from <= k < to ==> ascii_digit(#[trigger] chars@[k]),
    ensures
        r@ == digit_values(chars@.subrange(from as int, to as int)),
        are_digits(r@),
{
    let mut out: Vec<u8> = Vec::new();
    let mut i: usize = from;
    while i < to
        invariant
            from <= i <= to <= chars.len(),
            forall|k: int| from <= k < to ==> ascii_digit(#[trigger] chars@[k]),
            are_digits(out@),
            out@ =~= digit_values(chars@.subrange(from as int, i as int)),
        decreases to - i,
    {
        let c = chars[i];
        assert(ascii_digit(chars@[i as int]));
        let value: u8 = (c as u32 - 48) as u8;
        out.push(value);
        i = i + 1;
    }
    out
}

fn power_of_suffix(suffix: &str) -> (r: Option<u32>)
    ensures
        r is Some <==> suffix_power(suffix@) is Some,
        r matches Some(k) ==> suffix_power(suffix@) == Some(k as nat) && k <= 40,
{
    if same_text(suffix, "") || same_text(suffix, "b") {
        Some(0)
    } else if same_text(suffix, "k") || same_text(suffix, "kb") || same_text(suffix, "kib") {
        Some(10)
    } else if same_text(suffix, "m") || same_text(suffix, "mb") || same_text(suffix, "mib") {
        Some(20)
    } else if same_text(suffix, "g") || same_text(suffix, "gb") || same_text(suffix, "gib") {
        Some(30)
    } else if same_text(suffix, "t") || same_text(suffix, "tb") || same_text(suffix, "tib") {
        Some(40)
    } else {
        None
    }
}

/// `"500M"`, `"1.5GiB"`, `"2048"` -> bytes. Suffixes are binary multiples.
pub fn parse_bytes(input: &str) -> (r: Result<u64, SizeError>)
    ensures
        match r {
            Ok(v) => size_of(input@) == Ok::<nat, SizeFault>(v as nat),
            Err(e) => size_of(input@) == Err::<nat, SizeFault>(e@),
        },
{
    let text = trim(&chars_of(input));
    let mut end: usize = 0;
    while end < text.len() && (is_ascii_digit(text[end]) || text[end] == '.' || text[end] == ',')
        invariant
            0 <= end <= text.len(),
            forall|k: int| 0 <= k < end ==> ascii_digit(#[trigger] text@[k]) || is_point(text@[k]),
        decreases text.len() - end,
    {
        end = end + 1;
    }
    let ghost number = text@.take(end as int);
    proof {
        lemma_number_length(text@, end as int);
        assert(number =~= text@.subrange(0, end as int));
    }
    let point = find_point(&text, 0, end);
    let mut rest: usize = end;
    let valid = if point == end {
        end > 0
    } else {
        rest = point + 1;
        let second = find_point(&text, point + 1, end);
        assert(number.skip(point + 1) =~= text@.subrange(point + 1, end as int));
        end > 1 && second == end
    };
    if !valid {
        return Err(SizeError::Invalid { text: input.to_owned() });
    }
    let mut tail: Vec<char> = Vec::new();
    let mut i: usize = end;
    while i < text.len()
        invariant
            end <= i <= text.len(),
            tail@ =~= text@.subrange(end as int, i as int),
        decreases text.len() - i,
    {
        tail.push(text[i]);
        i = i + 1;
    }
    assert(tail@ =~= text@.skip(end as int));
    let suffix = string_of(&to_ascii_lowercase(&trim(&tail)));
    match power_of_suffix(suffix.as_str()) {
        None => Err(SizeError::UnknownUnit { unit: suffix, text: input.to_owned() }),
        Some(k) => {
            assert forall|j: int| 0 <= j < point implies ascii_digit(#[trigger] text@[j]) by {}
            assert forall|j: int| rest <= j < end implies ascii_digit(#[trigger] text@[j]) by {}
            let whole = collect_digits(&text, 0, point);
            let fraction = collect_digits(&text, rest, end);
            assert(number.take(point as int) =~= text@.subrange(0, point as int));
            assert(whole@ == whole_digits(number));
            assert(fraction@ =~= fraction_digits(number));
            Ok(decimal_size(&whole, &fraction, k))
        },
    }
}

proof fn lemma_digits_of(n: nat)
    ensures
        digits(n).len() > 0,
        forall|i: int| 0 <= i < digits(n).len() ==> ascii_digit(#[trigger] digits(n)[i]),
        decimal_value(digit_values(digits(n))) == n,
    decreases n,
{
    let text = digits(n);
    let values = digit_values(text);
    reveal_with_fuel(decimal_value, 2);
    if n < 10 {
        assert(ascii_digit(digit_char(n)) && digit_value(digit_char(n)) == n);
        assert(values.drop_last() =~= seq![]);
        assert(values.last() == n as u8);
    } else {
        lemma_digits_of(n / 10);
        let d = digit_char(n % 10);
        assert(ascii_digit(d) && digit_value(d) == n % 10);
        assert(text.last() == d);
        assert(values.drop_last() =~= digit_values(digits(n / 10)));
        assert(values.last() == (n % 10) as u8);
    }
}

/// A size suffix is made of small letters.
proof fn lemma_suffix_letters(suffix: Seq<char>)
    requires
        suffix_power(suffix) is Some,
    ensures
        forall|i: int| 0 <= i < suffix.len() ==> 'a' <= #[trigger] suffix[i] <= 'z',
{
    reveal_strlit("");
    reveal_strlit("b");
    reveal_strlit("k");
    reveal_strlit("kb");
    reveal_strlit("kib");
    reveal_strlit("m");
    reveal_strlit("mb");
    reveal_strlit("mib");
    reveal_strlit("g");
    reveal_strlit("gb");
    reveal_strlit("gib");
    reveal_strlit("t");
    reveal_strlit("tb");
    reveal_strlit("tib");
}

/// A text that neither starts nor ends with white space is trimmed already.
proof fn lemma_trimmed(text: Seq<char>)
    requires
        text.len() > 0 ==> !white_space(text[0]) && !white_space(text.last()),
    ensures
        trimmed(text) == text,
{
    assert(content_start(text) == 0);
    assert(text.skip(0) =~= text);
    assert(content_end(text) == text.len());
    assert(text.take(text.len() as int) =~= text);
}

/// A whole number of units is read exactly, whatever the suffix, as long as the
/// number has no more than 53 bits; what cannot be counted is cut to the most
/// that can be.
pub proof fn law_whole_sizes_read_exactly(n: nat, suffix: Seq<char>)
    requires
        n < MANTISSA,
        suffix_power(suffix) is Some,
    ensures
        size_of(digits(n) + suffix) == Ok::<nat, SizeFault>(
            if n * pow2(suffix_power(suffix)->Some_0) > u64::MAX {
                u64::MAX as nat
            } else {
                n * pow2(suffix_power(suffix)->Some_0)
            },
        ),
{
    let k = suffix_power(suffix)->Some_0;
    let number = digits(n);
    let text = number + suffix;
    lemma_digits_of(n);
    lemma_suffix_letters(suffix);
    assert(ascii_digit(number[0]));
    assert(text[0] == number[0]);
    assert(!white_space(text.last())) by {
        if suffix.len() == 0 {
            assert(text.last() == number[number.len() - 1]);
        } else {
            assert(text.last() == suffix[suffix.len() - 1]);
        }
    }
    lemma_trimmed(text);
    assert forall|i: int| 0 <= i < number.len() implies ascii_digit(#[trigger] text[i]) || is_point(
        text[i],
    ) by {
        assert(text[i] == number[i]);
    }
    if suffix.len() > 0 {
        assert(text[number.len() as int] == suffix[0]);
    }
    lemma_number_length(text, number.len() as int);
    assert(text.take(number.len() as int) =~= number);
    assert(text.skip(number.len() as int) =~= suffix);
    if suffix.len() > 0 {
        assert(suffix.last() == suffix[suffix.len() - 1]);
    }
    lemma_trimmed(suffix);
    assert forall|i: int| 0 <= i < suffix.len() implies ascii_lower(#[trigger] suffix[i])
        == suffix[i] by {}
    assert(ascii_lowered(suffix) =~= suffix);
    assert forall|i: int| 0 <= i < number.len() implies !is_point(#[trigger] number[i]) by {
        assert(ascii_digit(number[i]));
    }
    lemma_point_at(number, number.len() as int);
    assert(number.take(number.len() as int) =~= number);
    assert(fraction_digits(number) =~= seq![]);
    assert(ten_to(0) == 1);
    assert(decimal_value(Seq::<u8>::empty()) == 0);
    assert(n * 1 + 0 == n);
    if n > 0 {
        let s = lemma_scale_up(n, 1);
        lemma_double_times(n, 1, pow2(k), s);
        let p = pow2(s as nat);
        let f = pow2(k);
        lemma_pow2_pos(s as nat);
        assert(half_even(n * p, 1) == n * p);
        assert((n * p) * f / p == n * f) by (nonlinear_arith)
            requires
                p > 0,
        ;
    } else {
        assert(0 * pow2(k) == 0);
    }
}

proof fn lemma_digit_count(n: nat, limit: nat, count: nat)
    requires
        count > 0,
        limit == ten_to(count),
        n < limit,
    ensures
        digits(n).len() <= count,
    decreases count,
{
    if n >= 10 {
        if count == 1 {
            assert(ten_to(1) == 10) by {
                reveal_with_fuel(ten_to, 2);
            }
        } else {
            lemma_digit_count(n / 10, ten_to((count - 1) as nat), (count - 1) as nat);
        }
    }
}

proof fn lemma_excess(n: nat, e: nat)
    requires
        n < MANTISSA * pow2(e),
    ensures
        excess_bits(n) <= e,
    decreases e,
{
    if n >= MANTISSA {
        if e == 0 {
            lemma2_to64();
        } else {
            lemma_pow2_unfold(e);
            let half = pow2((e - 1) as nat);
            assert(n / 2 < MANTISSA * half) by (nonlinear_arith)
                requires
                    n < MANTISSA * (2 * half),
            ;
            lemma_excess(n / 2, (e - 1) as nat);
        }
    }
}

proof fn lemma_double_limit(n: nat)
    requires
        n <= u64::MAX,
    ensures
        as_double(n) <= 0x1_0000_0000_0000_0000,
{
    lemma2_to64();
    assert(pow2(11) == 2048);
    lemma_excess(n, 11);
    let e = excess_bits(n);
    lemma_double_bound(n, e);
    lemma_pow2_pos(e);
    if e < 11 {
        lemma_pow2_strictly_increases(e, 11);
    }
    let q = half_even(n, pow2(e));
    let unit = pow2(e);
    assert(q * unit <= 0x1_0000_0000_0000_0000) by (nonlinear_arith)
        requires
            q <= 0x20_0000_0000_0000,
            unit <= 2048,
    ;
}

/// The rounded quotient does not exceed a bound that the quotient keeps.
proof fn lemma_half_even_limit(n: nat, d: nat, limit: nat)
    requires
        d > 0,
        n <= limit * d,
    ensures
        half_even(n, d) <= limit,
{
    let (q, r) = (n / d, n % d);
    vstd::arithmetic::div_mod::lemma_fundamental_div_mod(n as int, d as int);
    assert(q <= limit) by (nonlinear_arith)
        requires
            d > 0,
            n == d * q + r,
            r >= 0,
            n <= limit * d,
    ;
    if q == limit {
        assert(r == 0) by (nonlinear_arith)
            requires
                n == d * q + r,
                r >= 0,
                n <= limit * d,
                q == limit,
        ;
    }
}

/// The rounded quotient is not below a bound that the quotient comes close to:
/// within less than a half, or by a half where the bound is even.
proof fn lemma_half_even_least(n: nat, d: nat, least: nat)
    requires
        d > 0,
        least > 0,
        2 * n >= (2 * least - 1) * d,
        2 * n > (2 * least - 1) * d || least % 2 == 0,
    ensures
        half_even(n, d) >= least,
{
    let (q, r) = (n / d, n % d);
    vstd::arithmetic::div_mod::lemma_fundamental_div_mod(n as int, d as int);
    assert(q + 1 >= least) by (nonlinear_arith)
        requires
            d > 0,
            n == d * q + r,
            0 <= r < d,
            2 * n >= (2 * least - 1) * d,
    ;
    if q < least {
        assert(2 * r >= d && (2 * n > (2 * least - 1) * d ==> 2 * r > d)) by (nonlinear_arith)
            requires
                n == d * q + r,
                q == least - 1,
                2 * n >= (2 * least - 1) * d,
        ;
    }
}

/// A rounded quotient of at least `least` comes from a quotient that is at most a
/// half below it.
proof fn lemma_half_even_from(n: nat, d: nat, least: nat)
    requires
        d > 0,
        least > 0,
        half_even(n, d) >= least,
    ensures
        2 * n >= (2 * least - 1) * d,
{
    let (q, r) = (n / d, n % d);
    vstd::arithmetic::div_mod::lemma_fundamental_div_mod(n as int, d as int);
    if q >= least {
        assert(2 * n >= (2 * least - 1) * d) by (nonlinear_arith)
            requires
                d > 0,
                n == d * q + r,
                r >= 0,
                q >= least,
        ;
    } else {
        assert(2 * n >= (2 * least - 1) * d) by (nonlinear_arith)
            requires
                n == d * q + r,
                q == least - 1,
                2 * r >= d,
        ;
    }
}

/// A number that is rounded to 53 bits keeps at least 52 of them.
proof fn lemma_quotient_large(n: nat, e: nat)
    requires
        n >= MANTISSA,
        excess_bits(n) == e,
    ensures
        n / pow2(e) >= MANTISSA / 2,
    decreases n,
{
    lemma_pow2_unfold(e);
    lemma2_to64();
    let half = n / 2;
    reveal_with_fuel(excess_bits, 2);
    if half < MANTISSA {
        assert(e == 1);
        assert(pow2(1) == 2);
    } else {
        lemma_quotient_large(half, (e - 1) as nat);
        lemma_pow2_pos((e - 1) as nat);
        vstd::arithmetic::div_mod::lemma_div_denominator(n as int, 2, pow2((e - 1) as nat) as int);
    }
}

proof fn lemma_double_least(n: nat)
    requires
        n >= 1024,
    ensures
        as_double(n) >= 1024,
{
    let e = excess_bits(n);
    lemma_pow2_pos(e);
    if n < MANTISSA {
        lemma2_to64();
        assert(half_even(n, 1) == n);
    } else {
        lemma_quotient_large(n, e);
        let (q, unit) = (half_even(n, pow2(e)), pow2(e));
        assert(q * unit >= 1024) by (nonlinear_arith)
            requires
                q >= 1024,
                unit >= 1,
        ;
    }
}

/// The characters of `text` that are digits.
pub open spec fn digits_in(text: Seq<char>) -> Seq<char> {
    text.filter(|c: char| ascii_digit(c))
}

/// Digits around a point are as many as they are.
proof fn lemma_digits_in(front: Seq<char>, back: Seq<char>)
    requires
        forall|i: int| 0 <= i < front.len() ==> ascii_digit(#[trigger] front[i]),
        forall|i: int| 0 <= i < back.len() ==> ascii_digit(#[trigger] back[i]),
    ensures
        digits_in(front).len() == front.len(),
        digits_in(front + seq!['.'] + back).len() == front.len() + back.len(),
{
    let keeps = |c: char| ascii_digit(c);
    lemma_all_kept(front);
    lemma_all_kept(back);
    let point = seq!['.'];
    assert(digits_in(point).len() == 0) by {
        reveal(Seq::filter);
        assert(digits_in(point.drop_last()) =~= seq![]);
        assert(point.last() == '.');
    }
    Seq::filter_distributes_over_add(front, point, keeps);
    Seq::filter_distributes_over_add(front + point, back, keeps);
}

proof fn lemma_all_kept(text: Seq<char>)
    requires
        forall|i: int| 0 <= i < text.len() ==> ascii_digit(#[trigger] text[i]),
    ensures
        digits_in(text) == text,
    decreases text.len(),
{
    reveal(Seq::filter);
    if text.len() > 0 {
        let init = text.drop_last();
        assert forall|i: int| 0 <= i < init.len() implies ascii_digit(#[trigger] init[i]) by {
            assert(init[i] == text[i]);
        }
        lemma_all_kept(init);
        assert(text =~= init.push(text.last()));
        assert(ascii_digit(text[text.len() - 1]));
    }
}

/// A number from 100 to 999, shown with any number of places, has three digits;
/// with two places any number below 1000 has.
proof fn lemma_three_digits(n: nat, places: nat)
    requires
        n < 1000,
        n >= 100 || places == 2,
        places <= 2,
    ensures
        digits_in(fixed_text(n, places)).len() == 3,
        fixed_text(n, places).len() <= 4,
{
    reveal_with_fuel(digits, 4);
    let none = Seq::<char>::empty();
    if places == 0 {
        lemma_digits_of(n);
        lemma_digits_in(digits(n), none);
    } else if places == 1 {
        lemma_digits_of(n / 10);
        let back = seq![digit_char(n % 10)];
        lemma_digits_in(digits(n / 10), back);
        assert(fixed_text(n, 1) =~= digits(n / 10) + seq!['.'] + back);
    } else {
        lemma_digits_of(n / 100);
        let back = seq![digit_char(n / 10 % 10), digit_char(n % 10)];
        lemma_digits_in(digits(n / 100), back);
        assert(fixed_text(n, 2) =~= digits(n / 100) + seq!['.'] + back);
    }
}

/// The number fits three digits in the largest unit.
pub open spec fn is_within_units(value: nat) -> bool {
    half_even(as_double(value), kilo(5)) < 1000
}

/// Three significant digits are kept: from 1024 on a size is shown as a number
/// of exactly three digits, with or without a point, and its unit, as long as
/// there is a unit in which it rounds to less than 1000.
pub proof fn law_sizes_have_three_digits(value: u64)
    requires
        value >= 1024,
        is_within_units(value as nat),
    ensures
        ({
            let size = as_double(value as nat);
            let k = shown_unit(size);
            let number = number_text(size, kilo(k));
            &&& size_text(value as nat) == number + " "@ + unit_name(k)
            &&& 1 <= k <= 5
            &&& digits_in(number).len() == 3
            &&& number.len() <= 4
        }),
{
    let size = as_double(value as nat);
    lemma_double_least(value as nat);
    lemma_double_limit(value as nat);
    reveal_with_fuel(kilo, 7);
    reveal_with_fuel(unit_from, 7);
    let first = unit_from(size, 0);
    let k = shown_unit(size);
    let (c, d) = (kilo(first), kilo(k));
    assert(1 <= first <= 5 && size >= c);
    assert(first < 5 ==> size < 1024 * c);
    let (n0, n1, n2) = (half_even(size, d), half_even(size * 10, d), half_even(size * 100, d));
    assert((2 * 1000 - 1) * d == 1999 * d && (2 * 100 - 1) * d == 199 * d) by (nonlinear_arith);
    if k != first {
        assert(d == 1024 * c);
        lemma_half_even_limit(size * 100, d, 100);
        lemma_three_digits(n2, 2);
    } else {
        if n2 < 1000 {
            lemma_three_digits(n2, 2);
        } else {
            lemma_half_even_from(size * 100, d, 1000);
            if n1 < 1000 {
                lemma_half_even_least(size * 10, d, 100);
                lemma_three_digits(n1, 1);
            } else {
                lemma_half_even_from(size * 10, d, 1000);
                lemma_half_even_least(size, d, 100);
                lemma_three_digits(n0, 0);
            }
        }
    }
}

/// The units reach up to 999 PiB.
pub proof fn law_units_reach_far(value: u64)
    requires
        value <= 999 * 0x4_0000_0000_0000,
    ensures
        is_within_units(value as nat),
{
    let n = value as nat;
    lemma2_to64();
    lemma2_to64_rest();
    assert(pow2(7) == 128 && pow2(50) == 0x4_0000_0000_0000);
    lemma_excess(n, 7);
    let e = excess_bits(n);
    let (unit, rest) = (pow2(e), pow2((50 - e) as nat));
    lemma_pow2_pos(e);
    lemma_pow2_adds(e, (50 - e) as nat);
    let most = 999 * rest;
    assert(most * unit == 999 * 0x4_0000_0000_0000) by (nonlinear_arith)
        requires
            most == 999 * rest,
            unit * rest == 0x4_0000_0000_0000,
    ;
    lemma_half_even_limit(n, unit, most);
    let q = half_even(n, unit);
    assert(q * unit <= most * unit) by (nonlinear_arith)
        requires
            q <= most,
    ;
    reveal_with_fuel(kilo, 7);
    lemma_half_even_limit(as_double(n), kilo(5), 999);
}

/// A size takes no more than nine columns, whatever it is, and no more than eight
/// as long as three digits do.
pub proof fn law_sizes_stay_narrow(value: u64)
    ensures
        size_text(value as nat).len() <= 9,
        is_within_units(value as nat) ==> size_text(value as nat).len() <= 8,
{
    reveal_strlit(" B");
    reveal_strlit(" ");
    reveal_strlit("B");
    reveal_strlit("KiB");
    reveal_strlit("MiB");
    reveal_strlit("GiB");
    reveal_strlit("TiB");
    reveal_strlit("PiB");
    reveal_with_fuel(ten_to, 6);
    let v = value as nat;
    if v < 1024 {
        lemma_digit_count(v, 10_000, 4);
    } else if is_within_units(v) {
        law_sizes_have_three_digits(value);
    } else {
        let size = as_double(v);
        lemma_double_limit(v);
        reveal_with_fuel(kilo, 7);
        reveal_with_fuel(unit_from, 7);
        let d = kilo(5);
        lemma_half_even_from(size, d, 1000);
        assert((2 * 1000 - 1) * d == 1999 * d) by (nonlinear_arith);
        assert(unit_from(size, 0) == 5);
        lemma_half_even_least(size * 100, d, 1000);
        lemma_half_even_least(size * 10, d, 1000);
        lemma_half_even_limit(size, d, 16384);
        lemma_digit_count(half_even(size, d), 100_000, 5);
    }
}

/// Suffixes are binary multiples: `k` stands for 1024, `m` for 1024 times that, and so
/// on up to `t`, each also with `b` or `ib` behind it; none at all, or `b` alone, is
/// bytes.
pub proof fn law_suffixes_are_binary(n: nat, suffix: Seq<char>, factor: nat)
    requires
        n < 0x20_0000_0000_0000,
        factor == if suffix == ""@ || suffix == "b"@ {
            1nat
        } else if suffix == "k"@ || suffix == "kb"@ || suffix == "kib"@ {
            0x400nat
        } else if suffix == "m"@ || suffix == "mb"@ || suffix == "mib"@ {
            0x10_0000nat
        } else if suffix == "g"@ || suffix == "gb"@ || suffix == "gib"@ {
            0x4000_0000nat
        } else if suffix == "t"@ || suffix == "tb"@ || suffix == "tib"@ {
            0x100_0000_0000nat
        } else {
            0nat
        },
        factor > 0,
    ensures
        size_of(digits(n) + suffix) == Ok::<nat, SizeFault>(
            if n * factor > u64::MAX {
                u64::MAX as nat
            } else {
                n * factor
            },
        ),
{
    lemma2_to64();
    lemma2_to64_rest();
    assert(suffix_power(suffix) is Some);
    assert(pow2(suffix_power(suffix)->Some_0) == factor);
    law_whole_sizes_read_exactly(n, suffix);
}

} // verus!
