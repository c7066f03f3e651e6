//! Parsing and rendering of the durations used for the "not touched since"
//! threshold: `s m h d w mo y`, combinable as `1y6mo`.

use vstd::prelude::*;

use crate::clock::{now, seconds, span_between, Duration, Timestamp, NANOS};
use crate::text::{
    ascii_digit, ascii_letter, ascii_lower, ascii_lowered, chars_of, content_end, content_start,
    decimal, digit_char, digit_value, digits, is_ascii_digit, is_ascii_letter, quote, quote_char,
    quoted, quoted_char, same_text, string_of, to_ascii_lowercase, trim, trimmed, white_space,
};

verus! {

pub const MINUTE: u64 = 60;

pub const HOUR: u64 = 3_600;

pub const DAY: u64 = 86_400;

pub const WEEK: u64 = 604_800;

pub const MONTH: u64 = 2_592_000;

pub const YEAR: u64 = 31_536_000;

/// Why a text is not a duration.
#[derive(Debug, PartialEq, Eq)]
pub enum DurationError {
    Empty,
    TooLarge { text: String },
    Unexpected { ch: char, text: String },
    NoNumber { text: String },
    MissingNumber { unit: String, text: String },
    UnknownUnit { unit: String, text: String },
}

/// What a [`DurationError`] says.
pub enum DurationFault {
    Empty,
    TooLarge { text: Seq<char> },
    Unexpected { ch: char, text: Seq<char> },
    NoNumber { text: Seq<char> },
    MissingNumber { unit: Seq<char>, text: Seq<char> },
    UnknownUnit { unit: Seq<char>, text: Seq<char> },
}

impl View for DurationError {
    type V = DurationFault;

    open spec fn view(&self) -> DurationFault {
        match *self {
            DurationError::Empty => DurationFault::Empty,
            DurationError::TooLarge { text } => DurationFault::TooLarge { text: text@ },
            DurationError::Unexpected { ch, text } => DurationFault::Unexpected { ch, text: text@ },
            DurationError::NoNumber { text } => DurationFault::NoNumber { text: text@ },
            DurationError::MissingNumber { unit, text } => DurationFault::MissingNumber {
                unit: unit@,
                text: text@,
            },
            DurationError::UnknownUnit { unit, text } => DurationFault::UnknownUnit {
                unit: unit@,
                text: text@,
            },
        }
    }
}

/// The wording of a fault, where `text` is the quoted duration and `part` the
/// quoted character or unit that is at fault.
pub open spec fn fault_wording(
    fault: DurationFault,
    text: Seq<char>,
    part: Seq<char>,
) -> Seq<char> {
    match fault {
        DurationFault::Empty => "empty duration"@,
        DurationFault::TooLarge { .. } => "duration "@ + text + " is too large"@,
        DurationFault::Unexpected { .. } => "unexpected character "@ + part + " in duration "@
            + text,
        DurationFault::NoNumber { .. } => "no number in duration "@ + text,
        DurationFault::MissingNumber { .. } => "unit "@ + part + " without a number in "@ + text,
        DurationFault::UnknownUnit { .. } => "unknown duration unit "@ + part + " in "@ + text,
    }
}

/// The message of a fault.
pub open spec fn fault_message(fault: DurationFault) -> Seq<char> {
    match fault {
        DurationFault::Empty => fault_wording(fault, ""@, ""@),
        DurationFault::TooLarge { text } => fault_wording(fault, quoted(text), ""@),
        DurationFault::Unexpected { ch, text } => fault_wording(
            fault,
            quoted(text),
            quoted_char(ch),
        ),
        DurationFault::NoNumber { text } => fault_wording(fault, quoted(text), ""@),
        DurationFault::MissingNumber { unit, text } => fault_wording(
            fault,
            quoted(text),
            quoted(unit),
        ),
        DurationFault::UnknownUnit { unit, text } => fault_wording(
            fault,
            quoted(text),
            quoted(unit),
        ),
    }
}

impl DurationError {
    /// The message, given the quoted duration and the quoted part at fault.
    pub fn worded(&self, text: &str, part: &str) -> (r: String)
        ensures
            r@ == fault_wording(self@, text@, part@),
    {
        match self {
            DurationError::Empty => "empty duration".to_owned(),
            DurationError::TooLarge { .. } => {
                let mut out = "duration ".to_owned();
                out.append(text);
                out.append(" is too large");
                out
            },
            DurationError::Unexpected { .. } => {
                let mut out = "unexpected character ".to_owned();
                out.append(part);
                out.append(" in duration ");
                out.append(text);
                out
            },
            DurationError::NoNumber { .. } => {
                let mut out = "no number in duration ".to_owned();
                out.append(text);
                out
            },
            DurationError::MissingNumber { .. } => {
                let mut out = "unit ".to_owned();
                out.append(part);
                out.append(" without a number in ");
                out.append(text);
                out
            },
            DurationError::UnknownUnit { .. } => {
                let mut out = "unknown duration unit ".to_owned();
                out.append(part);
                out.append(" in ");
                out.append(text);
                out
            },
        }
    }

    pub fn message(&self) -> (r: String)
        ensures
            r@ == fault_message(self@),
    {
        match self {
            DurationError::Empty => self.worded("", ""),
            DurationError::TooLarge { text } => self.worded(quote(text.as_str()).as_str(), ""),
            DurationError::Unexpected { ch, text } => self.worded(
                quote(text.as_str()).as_str(),
                quote_char(*ch).as_str(),
            ),
            DurationError::NoNumber { text } => self.worded(quote(text.as_str()).as_str(), ""),
            DurationError::MissingNumber { unit, text } => self.worded(
                quote(text.as_str()).as_str(),
                quote(unit.as_str()).as_str(),
            ),
            DurationError::UnknownUnit { unit, text } => self.worded(
                quote(text.as_str()).as_str(),
                quote(unit.as_str()).as_str(),
            ),
        }
    }
}

/// The length of a unit in seconds. A bare number is days.
pub open spec fn unit_seconds(unit: Seq<char>) -> Option<nat> {
    if unit == ""@ || unit == "d"@ || unit == "day"@ || unit == "days"@ {
        Some(DAY as nat)
    } else if unit == "s"@ || unit == "sec"@ || unit == "secs"@ || unit == "second"@ || unit
        == "seconds"@ {
        Some(1)
    } else if unit == "m"@ || unit == "min"@ || unit == "mins"@ || unit == "minute"@ || unit
        == "minutes"@ {
        Some(MINUTE as nat)
    } else if unit == "h"@ || unit == "hr"@ || unit == "hrs"@ || unit == "hour"@ || unit
        == "hours"@ {
        Some(HOUR as nat)
    } else if unit == "w"@ || unit == "week"@ || unit == "weeks"@ {
        Some(WEEK as nat)
    } else if unit == "mo"@ || unit == "mon"@ || unit == "month"@ || unit == "months"@ {
        Some(MONTH as nat)
    } else if unit == "y"@ || unit == "yr"@ || unit == "year"@ || unit == "years"@ {
        Some(YEAR as nat)
    } else {
        None
    }
}

/// What one `<number><unit>` component of `whole` is worth, in seconds.
pub open spec fn component_seconds(number: Option<nat>, unit: Seq<char>, whole: Seq<char>) -> Result<
    nat,
    DurationFault,
> {
    match number {
        None => if unit.len() == 0 {
            Ok(0)
        } else {
            Err(DurationFault::MissingNumber { unit, text: whole })
        },
        Some(n) => match unit_seconds(unit) {
            None => Err(DurationFault::UnknownUnit { unit, text: whole }),
            Some(s) => if n * s > u64::MAX {
                Err(DurationFault::TooLarge { text: whole })
            } else {
                Ok(n * s)
            },
        },
    }
}

/// How far the reading of a duration has come.
pub struct Scan {
    /// The worth of the finished components.
    pub total: nat,
    /// The number and the unit of the component being read.
    pub number: Option<nat>,
    pub unit: Seq<char>,
    /// A digit has been seen.
    pub seen: bool,
}

/// The component being read is finished.
pub open spec fn close_component(st: Scan, whole: Seq<char>) -> Result<Scan, DurationFault> {
    match component_seconds(st.number, st.unit, whole) {
        Err(fault) => Err(fault),
        Ok(worth) => if st.total + worth > u64::MAX {
            Err(DurationFault::TooLarge { text: whole })
        } else {
            Ok(Scan { total: st.total + worth, number: None, unit: seq![], seen: st.seen })
        },
    }
}

/// One more character. A digit behind a unit starts a new component; spaces and
/// underscores are passed over.
pub open spec fn scan_char(st: Scan, c: char, input: Seq<char>, whole: Seq<char>) -> Result<
    Scan,
    DurationFault,
> {
    if ascii_digit(c) {
        let begun = if st.unit.len() > 0 {
            close_component(st, whole)
        } else {
            Ok(st)
        };
        match begun {
            Err(fault) => Err(fault),
            Ok(st) => {
                let before = match st.number {
                    Some(n) => n,
                    None => 0,
                };
                let number = before * 10 + digit_value(c);
                if number > u64::MAX {
                    Err(DurationFault::TooLarge { text: input })
                } else {
                    Ok(Scan { number: Some(number), seen: true, ..st })
                }
            },
        }
    } else if ascii_letter(c) {
        Ok(Scan { unit: st.unit.push(c), ..st })
    } else if c == ' ' || c == '_' {
        Ok(st)
    } else {
        Err(DurationFault::Unexpected { ch: c, text: input })
    }
}

/// The characters of `read`, one after the other.
pub open spec fn scan_text(read: Seq<char>, input: Seq<char>, whole: Seq<char>) -> Result<
    Scan,
    DurationFault,
>
    decreases read.len(),
{
    if read.len() == 0 {
        Ok(Scan { total: 0, number: None, unit: seq![], seen: false })
    } else {
        match scan_text(read.drop_last(), input, whole) {
            Err(fault) => Err(fault),
            Ok(st) => scan_char(st, read.last(), input, whole),
        }
    }
}

/// The words for "no threshold".
pub open spec fn is_off_word(text: Seq<char>) -> bool {
    text == "0"@ || text == "off"@ || text == "any"@ || text == "none"@
}

/// What `input` means as a duration, in seconds.
pub open spec fn duration_of(input: Seq<char>) -> Result<nat, DurationFault> {
    let whole = ascii_lowered(trimmed(input));
    if whole.len() == 0 {
        Err(DurationFault::Empty)
    } else if is_off_word(whole) {
        Ok(0)
    } else {
        match scan_text(whole, input, whole) {
            Err(fault) => Err(fault),
            Ok(st) => if !st.seen {
                Err(DurationFault::NoNumber { text: input })
            } else {
                match close_component(st, whole) {
                    Err(fault) => Err(fault),
                    Ok(st) => Ok(st.total),
                }
            },
        }
    }
}

proof fn lemma_fault_in_prefix(read: Seq<char>, upto: int, input: Seq<char>, whole: Seq<char>)
    requires
        0 <= upto <= read.len(),
        scan_text(read.take(upto), input, whole) is Err,
    ensures
        scan_text(read, input, whole) == scan_text(read.take(upto), input, whole),
    decreases read.len() - upto,
{
    if upto < read.len() {
        assert(read.take(upto + 1).drop_last() =~= read.take(upto));
        lemma_fault_in_prefix(read, upto + 1, input, whole);
    } else {
        assert(read.take(upto) =~= read);
    }
}

fn seconds_of_unit(unit: &str) -> (r: Option<u64>)
    ensures
        r is Some <==> unit_seconds(unit@) is Some,
        r matches Some(s) ==> unit_seconds(unit@) == Some(s as nat),
{
    if same_text(unit, "") || same_text(unit, "d") || same_text(unit, "day") || same_text(
        unit,
        "days",
    ) {
        Some(DAY)
    } else if same_text(unit, "s") || same_text(unit, "sec") || same_text(unit, "secs")
        || same_text(unit, "second") || same_text(unit, "seconds") {
        Some(1)
    } else if same_text(unit, "m") || same_text(unit, "min") || same_text(unit, "mins")
        || same_text(unit, "minute") || same_text(unit, "minutes") {
        Some(MINUTE)
    } else if same_text(unit, "h") || same_text(unit, "hr") || same_text(unit, "hrs") || same_text(
        unit,
        "hour",
    ) || same_text(unit, "hours") {
        Some(HOUR)
    } else if same_text(unit, "w") || same_text(unit, "week") || same_text(unit, "weeks") {
        Some(WEEK)
    } else if same_text(unit, "mo") || same_text(unit, "mon") || same_text(unit, "month")
        || same_text(unit, "months") {
        Some(MONTH)
    } else if same_text(unit, "y") || same_text(unit, "yr") || same_text(unit, "year")
        || same_text(unit, "years") {
        Some(YEAR)
    } else {
        None
    }
}

/// The view of an optional number.
pub open spec fn number_view(number: Option<u64>) -> Option<nat> {
    match number {
        Some(n) => Some(n as nat),
        None => None,
    }
}

/// The worth of one component, in seconds.
fn flush(number: Option<u64>, unit: &String, whole: &String) -> (r: Result<u64, DurationError>)
    ensures
        match r {
            Ok(v) => component_seconds(number_view(number), unit@, whole@) == Ok::<
                nat,
                DurationFault,
            >(v as nat),
            Err(e) => component_seconds(number_view(number), unit@, whole@) == Err::<
                nat,
                DurationFault,
            >(e@),
        },
{
    match number {
        None => {
            if unit.as_str().is_empty() {
                Ok(0)
            } else {
                Err(DurationError::MissingNumber { unit: unit.clone(), text: whole.clone() })
            }
        },
        Some(n) => match seconds_of_unit(unit.as_str()) {
            None => Err(DurationError::UnknownUnit { unit: unit.clone(), text: whole.clone() }),
            Some(s) => match n.checked_mul(s) {
                Some(v) => Ok(v),
                None => Err(DurationError::TooLarge { text: whole.clone() }),
            },
        },
    }
}

/// `total` with the component being read added to it.
fn add_component(total: u64, number: Option<u64>, unit: &String, whole: &String, Ghost(seen): Ghost<
    bool,
>) -> (r: Result<u64, DurationError>)
    ensures
        ({
            let st = Scan { total: total as nat, number: number_view(number), unit: unit@, seen };
            match r {
                Ok(v) => close_component(st, whole@) == Ok::<Scan, DurationFault>(
                    Scan { total: v as nat, number: None, unit: seq![], seen },
                ),
                Err(e) => close_component(st, whole@) == Err::<Scan, DurationFault>(e@),
            }
        }),
{
    match flush(number, unit, whole) {
        Err(e) => Err(e),
        Ok(worth) => match total.checked_add(worth) {
            Some(v) => Ok(v),
            None => Err(DurationError::TooLarge { text: whole.clone() }),
        },
    }
}

/// `number` with one more digit, if it still fits.
fn append_digit(number: Option<u64>, c: char) -> (r: Option<u64>)
    requires
        ascii_digit(c),
    ensures
        ({
            let before = match number {
                Some(n) => n as nat,
                None => 0nat,
            };
            let after = before * 10 + digit_value(c);
            r == if after > u64::MAX {
                None::<u64>
            } else {
                Some(after as u64)
            }
        }),
{
    let before: u64 = match number {
        Some(n) => n,
        None => 0,
    };
    let digit: u64 = (c as u32 - 48) as u64;
    match before.checked_mul(10) {
        Some(n) => n.checked_add(digit),
        None => None,
    }
}

/// `"30d"`, `"1y6mo"`, `"12h"`, `"90"` (days), `"0"`/`"off"`/`"any"`/`"none"`
/// (disabled).
pub fn parse_duration(input: &str) -> (r: Result<Duration, DurationError>)
    ensures
        match r {
            Ok(d) => duration_of(input@) is Ok && d@ == seconds(duration_of(input@)->Ok_0),
            Err(e) => duration_of(input@) == Err::<nat, DurationFault>(e@),
        },
{
    let chars = to_ascii_lowercase(&trim(&chars_of(input)));
    if chars.len() == 0 {
        return Err(DurationError::Empty);
    }
    let whole = string_of(&chars);
    let text = whole.as_str();
    if same_text(text, "0") || same_text(text, "off") || same_text(text, "any") || same_text(
        text,
        "none",
    ) {
        return Ok(Duration::zero());
    }
    let mut total: u64 = 0;
    let mut number: Option<u64> = None;
    let mut unit = String::new();
    let mut seen = false;
    let mut i: usize = 0;
    assert(chars@.take(0) =~= Seq::<char>::empty());
    while i < chars.len()
        invariant
            0 <= i <= chars.len(),
            chars@ == whole@,
            chars@ == ascii_lowered(trimmed(input@)),
            chars@.len() > 0,
            !is_off_word(whole@),
            scan_text(chars@.take(i as int), input@, whole@) == Ok::<Scan, DurationFault>(
                Scan { total: total as nat, number: number_view(number), unit: unit@, seen },
            ),
        decreases chars.len() - i,
    {
        let c = chars[i];
        proof {
            let part = chars@.take(i + 1);
            assert(part.drop_last() =~= chars@.take(i as int));
            assert(part.last() == c);
            if scan_text(part, input@, whole@) is Err {
                lemma_fault_in_prefix(chars@, i + 1, input@, whole@);
            }
        }
        if is_ascii_digit(c) {
            if !unit.as_str().is_empty() {
                match add_component(total, number, &unit, &whole, Ghost(seen)) {
                    Err(e) => {
                        return Err(e);
                    },
                    Ok(v) => {
                        total = v;
                    },
                }
                number = None;
                unit = String::new();
            }
            match append_digit(number, c) {
                None => {
                    return Err(DurationError::TooLarge { text: input.to_owned() });
                },
                Some(n) => {
                    number = Some(n);
                },
            }
            seen = true;
            assert(unit@ =~= Seq::<char>::empty());
        } else if is_ascii_letter(c) {
            unit.push(c);
        } else if c == ' ' || c == '_' {
        } else {
            return Err(DurationError::Unexpected { ch: c, text: input.to_owned() });
        }
        i = i + 1;
    }
    assert(chars@.take(chars@.len() as int) =~= chars@);
    if !seen {
        return Err(DurationError::NoNumber { text: input.to_owned() });
    }
    match add_component(total, number, &unit, &whole, Ghost(seen)) {
        Err(e) => Err(e),
        Ok(v) => Ok(Duration::from_secs(v)),
    }
}

/// The text of a duration of `secs` seconds: the coarsest unit that fits exactly.
pub open spec fn duration_text(secs: nat) -> Seq<char> {
    if secs == 0 {
        "off"@
    } else if secs % (YEAR as nat) == 0 {
        digits(secs / (YEAR as nat)) + "y"@
    } else if secs % (MONTH as nat) == 0 {
        digits(secs / (MONTH as nat)) + "mo"@
    } else if secs % (WEEK as nat) == 0 {
        digits(secs / (WEEK as nat)) + "w"@
    } else if secs % (DAY as nat) == 0 {
        digits(secs / (DAY as nat)) + "d"@
    } else if secs % (HOUR as nat) == 0 {
        digits(secs / (HOUR as nat)) + "h"@
    } else {
        digits(secs) + "s"@
    }
}

fn number_with(n: u64, unit: &str) -> (r: String)
    ensures
        r@ == digits(n as nat) + unit@,
{
    let mut out = decimal(n);
    out.append(unit);
    out
}

/// `"30d"`, `"6mo"`, `"1y"`: the inverse of [`parse_duration`].
pub fn format_duration(d: Duration) -> (r: String)
    ensures
        r@ == duration_text(d@ / (NANOS as nat)),
{
    let secs = d.as_secs();
    if secs == 0 {
        "off".to_owned()
    } else if secs % YEAR == 0 {
        number_with(secs / YEAR, "y")
    } else if secs % MONTH == 0 {
        number_with(secs / MONTH, "mo")
    } else if secs % WEEK == 0 {
        number_with(secs / WEEK, "w")
    } else if secs % DAY == 0 {
        number_with(secs / DAY, "d")
    } else if secs % HOUR == 0 {
        number_with(secs / HOUR, "h")
    } else {
        number_with(secs, "s")
    }
}

/// `1 word`, or `n words`.
pub open spec fn counted(n: nat, word: Seq<char>) -> Seq<char> {
    if n == 1 {
        "1 "@ + word
    } else {
        digits(n) + " "@ + word + "s"@
    }
}

/// `1 word`, or `n words`.
pub(crate) fn plural(n: u64, word: &str) -> (r: String)
    ensures
        r@ == counted(n as nat, word@),
{
    if n == 1 {
        let mut out = "1 ".to_owned();
        out.append(word);
        out
    } else {
        let mut out = decimal(n);
        out.append(" ");
        out.append(word);
        out.append("s");
        out
    }
}

/// The coarse wording of an age of `secs` seconds.
pub open spec fn age_text(secs: nat) -> Seq<char> {
    if secs < MINUTE {
        "just now"@
    } else if secs < HOUR {
        counted(secs / (MINUTE as nat), "minute"@)
    } else if secs < DAY {
        counted(secs / (HOUR as nat), "hour"@)
    } else if secs < 2 * WEEK {
        counted(secs / (DAY as nat), "day"@)
    } else if secs < 2 * MONTH {
        counted(secs / (WEEK as nat), "week"@)
    } else if secs < 2 * YEAR {
        counted(secs / (MONTH as nat), "month"@)
    } else {
        counted(secs / (YEAR as nat), "year"@)
    }
}

/// Coarse "how long ago", e.g. `3 months`, `12 days`, `just now`.
pub fn format_age(age: Duration) -> (r: String)
    ensures
        r@ == age_text(age@ / (NANOS as nat)),
{
    let secs = age.as_secs();
    if secs < MINUTE {
        "just now".to_owned()
    } else if secs < HOUR {
        plural(secs / MINUTE, "minute")
    } else if secs < DAY {
        plural(secs / HOUR, "hour")
    } else if secs < WEEK * 2 {
        plural(secs / DAY, "day")
    } else if secs < MONTH * 2 {
        plural(secs / WEEK, "week")
    } else if secs < YEAR * 2 {
        plural(secs / MONTH, "month")
    } else {
        plural(secs / YEAR, "year")
    }
}

/// Age of `t` at the time `now`, nothing for points behind it.
pub fn age_at(t: Timestamp, now: Timestamp) -> (r: Duration)
    ensures
        r@ == span_between(t@, now@),
{
    t.until(&now)
}

/// Age of `t` at the moment of the call, nothing for points in the future.
pub fn age_of(t: Timestamp) -> (r: Duration)
    ensures
        exists|now: int| r@ == #[trigger] span_between(t@, now),
{
    age_at(t, now())
}

proof fn lemma_digits(n: nat)
    ensures
        digits(n).len() > 0,
        forall|i: int| 0 <= i < digits(n).len() ==> ascii_digit(#[trigger] digits(n)[i]),
    decreases n,
{
    if n >= 10 {
        lemma_digits(n / 10);
        assert(ascii_digit(digit_char(n % 10)));
    } else {
        assert(ascii_digit(digit_char(n)));
    }
}

proof fn lemma_scan_digits(n: nat, input: Seq<char>, whole: Seq<char>)
    requires
        n <= u64::MAX,
    ensures
        scan_text(digits(n), input, whole) == Ok::<Scan, DurationFault>(
            Scan { total: 0, number: Some(n), unit: seq![], seen: true },
        ),
    decreases n,
{
    let text = digits(n);
    let none: Seq<char> = seq![];
    if n < 10 {
        let d = digit_char(n);
        assert(text.drop_last() =~= none);
        assert(text.last() == d);
        assert(ascii_digit(d) && digit_value(d) == n);
        let st = Scan { total: 0, number: None, unit: none, seen: false };
        assert(scan_text(none, input, whole) == Ok::<Scan, DurationFault>(st));
        assert(scan_text(text, input, whole) == scan_char(st, d, input, whole));
    } else {
        lemma_scan_digits(n / 10, input, whole);
        let d = digit_char(n % 10);
        assert(text.drop_last() =~= digits(n / 10));
        assert(text.last() == d);
        assert(ascii_digit(d) && digit_value(d) == n % 10);
        assert((n / 10) * 10 + n % 10 == n);
        let st = Scan { total: 0, number: Some(n / 10), unit: none, seen: true };
        assert(scan_text(text, input, whole) == scan_char(st, d, input, whole));
    }
}

proof fn lemma_scan_letters(n: nat, unit: Seq<char>, input: Seq<char>, whole: Seq<char>)
    requires
        n <= u64::MAX,
        forall|i: int| 0 <= i < unit.len() ==> 'a' <= #[trigger] unit[i] <= 'z',
    ensures
        scan_text(digits(n) + unit, input, whole) == Ok::<Scan, DurationFault>(
            Scan { total: 0, number: Some(n), unit, seen: true },
        ),
    decreases unit.len(),
{
    let text = digits(n) + unit;
    if unit.len() == 0 {
        assert(text =~= digits(n));
        assert(unit =~= seq![]);
        lemma_scan_digits(n, input, whole);
    } else {
        lemma_scan_letters(n, unit.drop_last(), input, whole);
        assert(text.drop_last() =~= digits(n) + unit.drop_last());
        assert(text.last() == unit[unit.len() - 1]);
        assert(unit.drop_last().push(unit.last()) =~= unit);
    }
}

/// A number with a unit is worth that many units.
pub proof fn lemma_reads_component(n: nat, unit: Seq<char>, size: nat)
    requires
        0 < n,
        n * size <= u64::MAX,
        n <= u64::MAX,
        unit_seconds(unit) == Some(size),
        unit.len() > 0,
        forall|i: int| 0 <= i < unit.len() ==> 'a' <= #[trigger] unit[i] <= 'z',
    ensures
        duration_of(digits(n) + unit) == Ok::<nat, DurationFault>(n * size),
{
    let text = digits(n) + unit;
    lemma_digits(n);
    assert(ascii_digit(digits(n)[0]));
    assert(text[0] == digits(n)[0]);
    assert(text.last() == unit[unit.len() - 1]);
    assert(!white_space(text[0]) && !white_space(text.last()));
    assert(content_start(text) == 0);
    assert(text.skip(0) =~= text);
    assert(content_end(text) == text.len());
    assert(text.take(text.len() as int) =~= text);
    assert forall|i: int| 0 <= i < text.len() implies ascii_lower(#[trigger] text[i]) == text[i] by {
        if i < digits(n).len() {
            assert(text[i] == digits(n)[i]);
        } else {
            assert(text[i] == unit[i - digits(n).len()]);
        }
    }
    assert(ascii_lowered(text) =~= text);
    assert(!is_off_word(text)) by {
        reveal_strlit("0");
        reveal_strlit("off");
        reveal_strlit("any");
        reveal_strlit("none");
        assert(text.len() >= 2);
        assert("off"@[0] == 'o' && "any"@[0] == 'a' && "none"@[0] == 'n');
    }
    lemma_scan_letters(n, unit, text, text);
}

/// Every whole number of seconds is read back from its own text.
pub proof fn law_duration_reads_back(secs: u64)
    ensures
        duration_of(duration_text(secs as nat)) == Ok::<nat, DurationFault>(secs as nat),
{
    let s = secs as nat;
    reveal_strlit("off");
    reveal_strlit("y");
    reveal_strlit("mo");
    reveal_strlit("w");
    reveal_strlit("d");
    reveal_strlit("h");
    reveal_strlit("s");
    reveal_strlit("");
    if s == 0 {
        let text = "off"@;
        assert(content_start(text) == 0);
        assert(text.skip(0) =~= text);
        assert(content_end(text) == text.len());
        assert(text.take(text.len() as int) =~= text);
        assert(ascii_lowered(text) =~= text);
    } else {
        lemma_unit_sizes();
        if s % (YEAR as nat) == 0 {
            lemma_reads_component(s / (YEAR as nat), "y"@, YEAR as nat);
        } else if s % (MONTH as nat) == 0 {
            lemma_reads_component(s / (MONTH as nat), "mo"@, MONTH as nat);
        } else if s % (WEEK as nat) == 0 {
            lemma_reads_component(s / (WEEK as nat), "w"@, WEEK as nat);
        } else if s % (DAY as nat) == 0 {
            lemma_reads_component(s / (DAY as nat), "d"@, DAY as nat);
        } else if s % (HOUR as nat) == 0 {
            lemma_reads_component(s / (HOUR as nat), "h"@, HOUR as nat);
        } else {
            lemma_reads_component(s, "s"@, 1);
        }
    }
}

/// Reading does not depend on what the text is a part of, as long as it goes well.
proof fn lemma_scan_elsewhere(
    read: Seq<char>,
    input: Seq<char>,
    whole: Seq<char>,
    other_input: Seq<char>,
    other_whole: Seq<char>,
)
    requires
        scan_text(read, input, whole) is Ok,
    ensures
        scan_text(read, other_input, other_whole) == scan_text(read, input, whole),
    decreases read.len(),
{
    if read.len() > 0 {
        lemma_scan_elsewhere(read.drop_last(), input, whole, other_input, other_whole);
    }
}

/// Spaces and underscores at the end are passed over.
proof fn lemma_scan_gap(read: Seq<char>, gap: Seq<char>, input: Seq<char>, whole: Seq<char>)
    requires
        forall|i: int| 0 <= i < gap.len() ==> (#[trigger] gap[i] == ' ' || gap[i] == '_'),
    ensures
        scan_text(read + gap, input, whole) == scan_text(read, input, whole),
    decreases gap.len(),
{
    if gap.len() == 0 {
        assert(read + gap =~= read);
    } else {
        let init = gap.drop_last();
        assert forall|i: int| 0 <= i < init.len() implies (#[trigger] init[i] == ' ' || init[i]
            == '_') by {
            assert(init[i] == gap[i]);
        }
        lemma_scan_gap(read, init, input, whole);
        assert((read + gap).drop_last() =~= read + init);
        assert((read + gap).last() == gap[gap.len() - 1]);
    }
}

/// What is finished stays counted.
proof fn lemma_totals_grow(read: Seq<char>, upto: int, input: Seq<char>, whole: Seq<char>)
    requires
        0 <= upto <= read.len(),
        scan_text(read, input, whole) is Ok,
    ensures
        scan_text(read.take(upto), input, whole) is Ok,
        scan_text(read.take(upto), input, whole)->Ok_0.total <= scan_text(
            read,
            input,
            whole,
        )->Ok_0.total,
    decreases read.len() - upto,
{
    if upto < read.len() {
        lemma_totals_grow(read, upto + 1, input, whole);
        assert(read.take(upto + 1).drop_last() =~= read.take(upto));
    } else {
        assert(read.take(upto) =~= read);
    }
}

/// Behind components worth `before`, a text that starts with a digit is read as
/// it is by itself.
proof fn lemma_scan_behind(
    front: Seq<char>,
    st: Scan,
    before: nat,
    text: Seq<char>,
    upto: int,
    input: Seq<char>,
    whole: Seq<char>,
)
    requires
        scan_text(front, input, whole) == Ok::<Scan, DurationFault>(st),
        st.unit.len() > 0,
        close_component(st, whole) is Ok,
        close_component(st, whole)->Ok_0.total == before,
        1 <= upto <= text.len(),
        ascii_digit(text[0]),
        scan_text(text, input, whole) is Ok,
        before + scan_text(text, input, whole)->Ok_0.total <= u64::MAX,
    ensures
        scan_text(text.take(upto), input, whole) is Ok,
        ({
            let alone = scan_text(text.take(upto), input, whole)->Ok_0;
            scan_text(front + text.take(upto), input, whole) == Ok::<Scan, DurationFault>(
                Scan { total: before + alone.total, ..alone },
            )
        }),
    decreases upto,
{
    let part = text.take(upto);
    lemma_totals_grow(text, upto, input, whole);
    lemma_totals_grow(text, upto - 1, input, whole);
    assert(part.drop_last() =~= text.take(upto - 1));
    assert(part.last() == text[upto - 1]);
    assert((front + part).drop_last() =~= front + text.take(upto - 1));
    assert((front + part).last() == text[upto - 1]);
    if upto == 1 {
        assert(front + text.take(0) =~= front);
        assert(text.take(0) =~= seq![]);
    } else {
        lemma_scan_behind(front, st, before, text, upto - 1, input, whole);
    }
}

proof fn lemma_start_of_content(text: Seq<char>, more: Seq<char>)
    requires
        text.len() > 0,
        !white_space(text.last()),
    ensures
        0 <= content_start(text) < text.len(),
        content_start(text + more) == content_start(text),
        content_end(text.skip(content_start(text))) == text.len() - content_start(text),
    decreases text.len(),
{
    assert((text + more)[0] == text[0]);
    if white_space(text[0]) {
        assert(text.len() > 1);
        let rest = text.skip(1);
        assert(rest.last() == text.last());
        lemma_start_of_content(rest, more);
        assert((text + more).skip(1) =~= rest + more);
        assert(rest.skip(content_start(rest)) =~= text.skip(content_start(text)));
    } else {
        assert(text.skip(0) =~= text);
    }
}

proof fn lemma_end_of_content(text: Seq<char>, before: Seq<char>)
    requires
        text.len() > 0,
        !white_space(text[0]),
    ensures
        0 < content_end(text) <= text.len(),
        content_end(before + text) == before.len() + content_end(text),
        content_start(text) == 0,
    decreases text.len(),
{
    assert((before + text).last() == text.last());
    if white_space(text.last()) {
        assert(text.len() > 1);
        let rest = text.drop_last();
        assert(rest[0] == text[0]);
        lemma_end_of_content(rest, before);
        assert((before + text).drop_last() =~= before + rest);
    }
}

/// Trimming a text whose parts meet in something else than white space trims its
/// outer ends.
proof fn lemma_trimmed_parts(a: Seq<char>, gap: Seq<char>, b: Seq<char>)
    requires
        a.len() > 0,
        b.len() > 0,
        !white_space(a.last()),
        !white_space(b[0]),
    ensures
        trimmed(a + gap + b) == trimmed(a) + gap + trimmed(b),
        trimmed(a).len() > 0,
        trimmed(a).last() == a.last(),
        trimmed(b).len() > 0,
        trimmed(b)[0] == b[0],
{
    let all = a + gap + b;
    assert(all =~= a + (gap + b));
    lemma_start_of_content(a, gap + b);
    let at = content_start(a);
    let front = a.skip(at) + gap;
    assert(all.skip(at) =~= front + b);
    lemma_end_of_content(b, front);
    assert(b.skip(0) =~= b);
    assert(trimmed(a) =~= a.skip(at));
    assert(trimmed(b) =~= b.take(content_end(b)));
    assert(trimmed(all) =~= trimmed(a) + gap + trimmed(b));
}

/// Durations written one behind the other add up, with any spaces and underscores
/// between them: where the first ends in a unit and the second starts with a
/// number, and the sum can be held.
pub proof fn law_durations_add_up(a: Seq<char>, gap: Seq<char>, b: Seq<char>, x: nat, y: nat)
    requires
        duration_of(a) == Ok::<nat, DurationFault>(x),
        duration_of(b) == Ok::<nat, DurationFault>(y),
        !is_off_word(ascii_lowered(trimmed(a))),
        a.len() > 0 && ascii_letter(a.last()),
        b.len() > 0 && ascii_digit(b[0]),
        forall|i: int| 0 <= i < gap.len() ==> (#[trigger] gap[i] == ' ' || gap[i] == '_'),
        x + y <= u64::MAX,
    ensures
        duration_of(a + gap + b) == Ok::<nat, DurationFault>(x + y),
{
    let input = a + gap + b;
    lemma_trimmed_parts(a, gap, b);
    let (first, second) = (ascii_lowered(trimmed(a)), ascii_lowered(trimmed(b)));
    let whole = ascii_lowered(trimmed(input));
    assert(whole =~= first + gap + second) by {
        assert forall|i: int| 0 <= i < gap.len() implies ascii_lower(#[trigger] gap[i]) == gap[i] by {}
    }
    let letter = first.last();
    assert(letter == ascii_lower(a.last()));
    assert(ascii_letter(letter));
    assert(second[0] == ascii_lower(b[0]));
    assert(ascii_digit(second[0]));
    let meet = (first + gap).len() as int;
    assert(whole[meet] == second[0]);
    assert(whole[first.len() - 1] == letter);
    assert(!is_off_word(whole)) by {
        reveal_strlit("0");
        reveal_strlit("off");
        reveal_strlit("any");
        reveal_strlit("none");
        if whole == "0"@ {
            assert(whole.len() == 1);
        }
        assert(forall|i: int| 0 <= i < 3 ==> !ascii_digit(#[trigger] "off"@[i]));
        assert(forall|i: int| 0 <= i < 3 ==> !ascii_digit(#[trigger] "any"@[i]));
        assert(forall|i: int| 0 <= i < 4 ==> !ascii_digit(#[trigger] "none"@[i]));
    }
    // The first part by itself.
    lemma_scan_elsewhere(first, a, first, input, whole);
    let st = scan_text(first, input, whole)->Ok_0;
    assert(st.unit.len() > 0);
    assert(close_component(st, whole)->Ok_0.total == x);
    lemma_scan_gap(first, gap, input, whole);
    // The second part by itself.
    if is_off_word(second) {
        lemma_zero_is_read(second, input, whole);
    } else {
        lemma_scan_elsewhere(second, b, second, input, whole);
    }
    let end = scan_text(second, input, whole)->Ok_0;
    assert(close_component(end, whole) is Ok && close_component(end, whole)->Ok_0.total == y);
    lemma_scan_behind(
        first + gap,
        st,
        x,
        second,
        second.len() as int,
        input,
        whole,
    );
    assert(second.take(second.len() as int) =~= second);
    assert(scan_text(whole, input, whole) == Ok::<Scan, DurationFault>(
        Scan { total: x + end.total, ..end },
    ));
}

/// Of the words for "no threshold", the one that is a number is read as such.
proof fn lemma_zero_is_read(text: Seq<char>, input: Seq<char>, whole: Seq<char>)
    requires
        is_off_word(text),
        text.len() > 0,
        ascii_digit(text[0]),
    ensures
        scan_text(text, input, whole) is Ok,
        scan_text(text, input, whole)->Ok_0.seen,
        close_component(scan_text(text, input, whole)->Ok_0, whole) is Ok,
        close_component(scan_text(text, input, whole)->Ok_0, whole)->Ok_0.total == 0,
{
    reveal_strlit("0");
    reveal_strlit("off");
    reveal_strlit("any");
    reveal_strlit("none");
    reveal_strlit("");
    assert("off"@[0] == 'o' && "any"@[0] == 'a' && "none"@[0] == 'n');
    reveal_with_fuel(digits, 1);
    assert(text =~= digits(0));
    lemma_scan_digits(0, input, whole);
    assert(unit_seconds(seq![]) == Some(DAY as nat)) by {
        assert(""@ =~= seq![]);
    }
}

pub proof fn lemma_unit_sizes()
    ensures
        unit_seconds("y"@) == Some(YEAR as nat),
        unit_seconds("mo"@) == Some(MONTH as nat),
        unit_seconds("w"@) == Some(WEEK as nat),
        unit_seconds("d"@) == Some(DAY as nat),
        unit_seconds("h"@) == Some(HOUR as nat),
        unit_seconds("s"@) == Some(1nat),
{
    reveal_strlit("");
    reveal_strlit("y");
    reveal_strlit("mo");
    reveal_strlit("w");
    reveal_strlit("d");
    reveal_strlit("h");
    reveal_strlit("s");
    reveal_strlit("day");
    reveal_strlit("days");
    reveal_strlit("sec");
    reveal_strlit("secs");
    reveal_strlit("second");
    reveal_strlit("seconds");
    reveal_strlit("m");
    reveal_strlit("min");
    reveal_strlit("mins");
    reveal_strlit("minute");
    reveal_strlit("minutes");
    reveal_strlit("hr");
    reveal_strlit("hrs");
    reveal_strlit("hour");
    reveal_strlit("hours");
    reveal_strlit("week");
    reveal_strlit("weeks");
    reveal_strlit("mon");
    reveal_strlit("month");
    reveal_strlit("months");
    assert(""@.len() == 0);
    assert("y"@.len() == 1 && "w"@.len() == 1 && "d"@.len() == 1 && "h"@.len() == 1 && "s"@.len() == 1 && "m"@.len() == 1);
    assert("mo"@.len() == 2 && "hr"@.len() == 2);
    assert("day"@.len() == 3 && "sec"@.len() == 3 && "min"@.len() == 3 && "hrs"@.len() == 3 && "mon"@.len() == 3);
    assert("days"@.len() == 4 && "secs"@.len() == 4 && "mins"@.len() == 4 && "hour"@.len() == 4 && "week"@.len() == 4);
    assert("second"@.len() == 6 && "minute"@.len() == 6 && "months"@.len() == 6);
    assert("seconds"@.len() == 7 && "minutes"@.len() == 7);
    assert("hours"@.len() == 5 && "weeks"@.len() == 5 && "month"@.len() == 5);
    assert("y"@[0] == 'y' && "w"@[0] == 'w' && "d"@[0] == 'd' && "h"@[0] == 'h' && "s"@[0] == 's' && "m"@[0] == 'm' && "mo"@[0] == 'm' && "hr"@[0] == 'h');
}

/// A number with a unit behind it is read as a text of its own.
proof fn lemma_reads_text(n: nat, unit: Seq<char>)
    requires
        n <= u64::MAX,
        digits(n) + unit != "0"@,
        forall|i: int| 0 <= i < unit.len() ==> 'a' <= #[trigger] unit[i] <= 'z',
    ensures
        ({
            let text = digits(n) + unit;
            duration_of(text) == match component_seconds(Some(n), unit, text) {
                Ok(v) => Ok::<nat, DurationFault>(v),
                Err(f) => Err(f),
            }
        }),
{
    let text = digits(n) + unit;
    lemma_digits(n);
    assert(ascii_digit(digits(n)[0]));
    assert(text[0] == digits(n)[0]);
    if unit.len() > 0 {
        assert(text.last() == unit[unit.len() - 1]);
    } else {
        assert(text =~= digits(n));
        assert(ascii_digit(digits(n)[digits(n).len() - 1]));
        assert(text.last() == digits(n)[digits(n).len() - 1]);
    }
    assert(!white_space(text[0]) && !white_space(text.last()));
    assert(content_start(text) == 0);
    assert(text.skip(0) =~= text);
    assert(content_end(text) == text.len());
    assert(text.take(text.len() as int) =~= text);
    assert forall|i: int| 0 <= i < text.len() implies ascii_lower(#[trigger] text[i]) == text[i] by {
        if i < digits(n).len() {
            assert(text[i] == digits(n)[i]);
        } else {
            assert(text[i] == unit[i - digits(n).len()]);
        }
    }
    assert(ascii_lowered(text) =~= text);
    assert(!is_off_word(text)) by {
        reveal_strlit("off");
        reveal_strlit("any");
        reveal_strlit("none");
        assert("off"@[0] == 'o' && "any"@[0] == 'a' && "none"@[0] == 'n');
    }
    lemma_scan_letters(n, unit, text, text);
}

/// What the units are worth: a minute is 60 seconds, an hour 60 minutes, a day 24
/// hours, a week 7 days, a month 30 days and a year 365 days. A number without a unit
/// is days. Any other word behind a number is no unit.
pub proof fn law_units_are_worth(n: nat, unit: Seq<char>, size: nat)
    requires
        n <= u64::MAX,
        forall|i: int| 0 <= i < unit.len() ==> 'a' <= #[trigger] unit[i] <= 'z',
        size == if unit == ""@ || unit == "d"@ || unit == "day"@ || unit == "days"@ {
            86400nat
        } else if unit == "s"@ || unit == "sec"@ || unit == "secs"@ || unit == "second"@ || unit
            == "seconds"@ {
            1nat
        } else if unit == "m"@ || unit == "min"@ || unit == "mins"@ || unit == "minute"@ || unit
            == "minutes"@ {
            60nat
        } else if unit == "h"@ || unit == "hr"@ || unit == "hrs"@ || unit == "hour"@ || unit
            == "hours"@ {
            3600nat
        } else if unit == "w"@ || unit == "week"@ || unit == "weeks"@ {
            604800nat
        } else if unit == "mo"@ || unit == "mon"@ || unit == "month"@ || unit == "months"@ {
            2592000nat
        } else if unit == "y"@ || unit == "yr"@ || unit == "year"@ || unit == "years"@ {
            31536000nat
        } else {
            0nat
        },
    ensures
        size > 0 && n * size <= u64::MAX ==> duration_of(digits(n) + unit) == Ok::<
            nat,
            DurationFault,
        >(n * size),
        size > 0 && n * size > u64::MAX ==> duration_of(digits(n) + unit) == Err::<
            nat,
            DurationFault,
        >(DurationFault::TooLarge { text: digits(n) + unit }),
        size == 0 ==> duration_of(digits(n) + unit) == Err::<nat, DurationFault>(
            DurationFault::UnknownUnit { unit, text: digits(n) + unit },
        ),
{
    let text = digits(n) + unit;
    lemma_unit_sizes();
    assert(unit_seconds(unit) == if size == 0 {
        None::<nat>
    } else {
        Some(size)
    });
    if text == "0"@ {
        reveal_strlit("0");
        reveal_strlit("");
        assert(text.len() == 1);
        lemma_digits(n);
        assert(unit =~= ""@);
        assert(text =~= digits(n));
        assert(n == 0) by {
            if n >= 10 {
                lemma_digits(n / 10);
                assert(digits(n).len() >= 2);
            } else {
                assert(digits(n)[0] == digit_char(n));
                assert(digit_value(digit_char(n)) == n);
            }
        }
        assert(content_start(text) == 0);
        assert(text.skip(0) =~= text);
        assert(content_end(text) == text.len());
        assert(text.take(text.len() as int) =~= text);
        assert(ascii_lowered(text) =~= text);
        assert(n * size == 0) by (nonlinear_arith)
            requires
                n == 0,
        ;
    } else {
        lemma_reads_text(n, unit);
    }
}

/// The words that switch a threshold off, in whatever case and with white space
/// around them, are read as nothing.
pub proof fn law_off_words_are_nothing(word: Seq<char>)
    requires
        word == "0"@ || word == "off"@ || word == "any"@ || word == "none"@,
    ensures
        duration_of(word) == Ok::<nat, DurationFault>(0),
        forall|input: Seq<char>| #[trigger]
            ascii_lowered(trimmed(input)) == word ==> duration_of(input) == Ok::<nat, DurationFault>(0),
{
    reveal_strlit("0");
    reveal_strlit("off");
    reveal_strlit("any");
    reveal_strlit("none");
    assert(!white_space(word[0]) && !white_space(word.last()));
    assert(content_start(word) == 0);
    assert(word.skip(0) =~= word);
    assert(content_end(word) == word.len());
    assert(word.take(word.len() as int) =~= word);
    assert forall|i: int| 0 <= i < word.len() implies ascii_lower(#[trigger] word[i]) == word[i] by {}
    assert(ascii_lowered(word) =~= word);
}

/// A duration is shown in the coarsest unit that fits exactly: `n` years as such,
/// months where they are no years, weeks where they are neither, and so on.
pub proof fn law_coarsest_unit_is_shown(n: nat)
    requires
        n > 0,
    ensures
        duration_text(n * 31536000) == digits(n) + "y"@,
        (n * 2592000) % 31536000 != 0 ==> duration_text(n * 2592000) == digits(n) + "mo"@,
        (n * 604800) % 31536000 != 0 && (n * 604800) % 2592000 != 0 ==> duration_text(n * 604800)
            == digits(n) + "w"@,
        (n * 86400) % 31536000 != 0 && (n * 86400) % 2592000 != 0 && n % 7 != 0 ==> duration_text(
            n * 86400,
        ) == digits(n) + "d"@,
        n % 24 != 0 ==> duration_text(n * 3600) == digits(n) + "h"@,
        n % 3600 != 0 ==> duration_text(n) == digits(n) + "s"@,
        duration_text(0) == "off"@,
{
    lemma_unit_sizes();
    assert((n * 31536000) % 31536000 == 0 && (n * 31536000) / 31536000 == n);
    assert((n * 2592000) % 2592000 == 0 && (n * 2592000) / 2592000 == n);
    assert((n * 604800) % 604800 == 0 && (n * 604800) / 604800 == n);
    assert((n * 86400) % 86400 == 0 && (n * 86400) / 86400 == n);
    assert((n * 3600) % 3600 == 0 && (n * 3600) / 3600 == n);
    assert(n % 7 != 0 ==> (n * 86400) % 604800 != 0);
    assert(n % 24 != 0 ==> (n * 3600) % 86400 != 0 && (n * 3600) % 604800 != 0 && (n * 3600)
        % 2592000 != 0 && (n * 3600) % 31536000 != 0);
    assert(n % 3600 != 0 ==> n % 86400 != 0 && n % 604800 != 0 && n % 2592000 != 0 && n % 31536000
        != 0);
}

/// How an age is worded: in whole minutes below an hour, in hours below a day, in
/// days below two weeks, in weeks below two months, in months below two years, and
/// in years from there on; what is begun does not count.
pub proof fn law_ages_are_worded(secs: nat, n: nat)
    ensures
        secs < 60 ==> age_text(secs) == "just now"@,
        60 <= secs < 3600 && n * 60 <= secs < n * 60 + 60 ==> age_text(secs) == if n == 1 {
            "1 "@ + "minute"@
        } else {
            digits(n) + " "@ + "minute"@ + "s"@
        },
        3600 <= secs < 86400 && n * 3600 <= secs < n * 3600 + 3600 ==> age_text(secs) == if n == 1 {
            "1 "@ + "hour"@
        } else {
            digits(n) + " "@ + "hour"@ + "s"@
        },
        86400 <= secs < 1209600 && n * 86400 <= secs < n * 86400 + 86400 ==> age_text(secs) == if n
            == 1 {
            "1 "@ + "day"@
        } else {
            digits(n) + " "@ + "day"@ + "s"@
        },
        1209600 <= secs < 5184000 && n * 604800 <= secs < n * 604800 + 604800 ==> age_text(secs)
            == digits(n) + " "@ + "week"@ + "s"@,
        5184000 <= secs < 63072000 && n * 2592000 <= secs < n * 2592000 + 2592000 ==> age_text(secs)
            == digits(n) + " "@ + "month"@ + "s"@,
        63072000 <= secs && n * 31536000 <= secs < n * 31536000 + 31536000 ==> age_text(secs)
            == digits(n) + " "@ + "year"@ + "s"@,
{
    lemma_unit_sizes();
    assert(n * 60 <= secs < n * 60 + 60 ==> secs / 60 == n);
    assert(n * 3600 <= secs < n * 3600 + 3600 ==> secs / 3600 == n);
    assert(n * 86400 <= secs < n * 86400 + 86400 ==> secs / 86400 == n);
    assert(n * 604800 <= secs < n * 604800 + 604800 ==> secs / 604800 == n);
    assert(n * 2592000 <= secs < n * 2592000 + 2592000 ==> secs / 2592000 == n);
    assert(n * 31536000 <= secs < n * 31536000 + 31536000 ==> secs / 31536000 == n);
}

} // verus!
