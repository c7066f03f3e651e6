//! Points in time and spans of time, to the nanosecond.

use vstd::prelude::*;

use crate::order::{order_int, Order};

verus! {

/// Nanoseconds in a second.
pub const NANOS: u32 = 1_000_000_000;

/// A span of time.
#[derive(Clone, Copy, Debug, PartialEq, Eq, PartialOrd, Ord, Structural)]
pub struct Duration {
    secs: u64,
    nanos: u32,
}

/// A point in time, counted from the Unix epoch.
#[derive(Clone, Copy, Debug, PartialEq, Eq, PartialOrd, Ord, Structural)]
pub struct Timestamp {
    secs: i64,
    nanos: u32,
}

impl View for Duration {
    type V = nat;

    /// The length in nanoseconds.
    closed spec fn view(&self) -> nat {
        self.secs as nat * NANOS as nat + self.nanos as nat
    }
}

impl View for Timestamp {
    type V = int;

    /// Nanoseconds since the Unix epoch, negative before it.
    closed spec fn view(&self) -> int {
        self.secs * NANOS + self.nanos
    }
}

/// The view of an optional point in time.
pub open spec fn time_view(t: Option<Timestamp>) -> Option<int> {
    match t {
        Some(t) => Some(t@),
        None => None,
    }
}

/// The later of two optional points in time; any point is later than none.
pub open spec fn later_of(a: Option<int>, b: Option<int>) -> Option<int> {
    match (a, b) {
        (Some(x), Some(y)) => Some(if x >= y {
            x
        } else {
            y
        }),
        (Some(x), None) => Some(x),
        (None, _) => b,
    }
}

/// Seconds as nanoseconds.
pub open spec fn seconds(n: nat) -> nat {
    n * NANOS as nat
}

/// How long before `now` the point `t` lies; nothing if it lies behind it.
pub open spec fn span_between(t: int, now: int) -> nat {
    if now >= t {
        (now - t) as nat
    } else {
        0
    }
}

impl Duration {
    #[verifier::type_invariant]
    spec fn is_valid(self) -> bool {
        self.nanos < NANOS
    }

    /// `secs` seconds and `nanos` nanoseconds.
    pub fn new(secs: u64, nanos: u32) -> (r: Duration)
        requires
            nanos < NANOS,
        ensures
            r@ == seconds(secs as nat) + nanos,
    {
        Duration { secs, nanos }
    }

    pub fn from_secs(secs: u64) -> (r: Duration)
        ensures
            r@ == seconds(secs as nat),
    {
        Duration { secs, nanos: 0 }
    }

    /// The empty span.
    pub fn zero() -> (r: Duration)
        ensures
            r@ == 0,
    {
        Duration { secs: 0, nanos: 0 }
    }

    /// The whole seconds.
    pub fn as_secs(&self) -> (r: u64)
        ensures
            r == self@ / (NANOS as nat),
            seconds(r as nat) <= self@ < seconds(r as nat + 1),
    {
        proof {
            use_type_invariant(self);
            let (s, n) = (self.secs as int, self.nanos as int);
            assert((s * 1_000_000_000 + n) / 1_000_000_000 == s) by (nonlinear_arith)
                requires
                    0 <= n < 1_000_000_000,
                    0 <= s,
            ;
        }
        self.secs
    }

    /// The nanoseconds beyond the whole seconds.
    pub fn subsec_nanos(&self) -> (r: u32)
        ensures
            r == self@ % (NANOS as nat),
            r < NANOS,
    {
        proof {
            use_type_invariant(self);
            let (s, n) = (self.secs as int, self.nanos as int);
            assert((s * 1_000_000_000 + n) % 1_000_000_000 == n) by (nonlinear_arith)
                requires
                    0 <= n < 1_000_000_000,
                    0 <= s,
            ;
        }
        self.nanos
    }

    pub fn is_zero(&self) -> (r: bool)
        ensures
            r == (self@ == 0),
    {
        self.secs == 0 && self.nanos == 0
    }

    /// How two spans compare.
    pub fn order(&self, other: &Duration) -> (r: Order)
        ensures
            r == order_int(self@ as int, other@ as int),
    {
        proof {
            use_type_invariant(self);
            use_type_invariant(other);
        }
        if self.secs < other.secs {
            Order::Before
        } else if self.secs > other.secs {
            Order::After
        } else if self.nanos < other.nanos {
            Order::Before
        } else if self.nanos > other.nanos {
            Order::After
        } else {
            Order::Same
        }
    }

    /// Whether more than `secs` seconds lie between `since` and this span, both
    /// counted from the same point.
    pub fn is_past(&self, since: &Duration, secs: u64) -> (r: bool)
        ensures
            r == (self@ > since@ + seconds(secs as nat)),
    {
        let unit = NANOS as u128;
        let here: u128 = self.secs as u128 * unit + self.nanos as u128;
        let there: u128 = since.secs as u128 * unit + since.nanos as u128;
        here > there + secs as u128 * unit
    }

    /// Whether two spans are equally long.
    pub fn same(&self, other: &Duration) -> (r: bool)
        ensures
            r == (self@ == other@),
    {
        match self.order(other) {
            Order::Same => true,
            _ => false,
        }
    }

    /// Whether this span is at least as long as `other`.
    pub fn at_least(&self, other: &Duration) -> (r: bool)
        ensures
            r == (self@ >= other@),
    {
        match self.order(other) {
            Order::Before => false,
            _ => true,
        }
    }
}

impl Timestamp {
    #[verifier::type_invariant]
    spec fn is_valid(self) -> bool {
        self.nanos < NANOS
    }

    /// `secs` seconds behind the epoch, and `nanos` nanoseconds behind that.
    pub fn new(secs: i64, nanos: u32) -> (r: Timestamp)
        requires
            nanos < NANOS,
        ensures
            r@ == secs * NANOS + nanos,
    {
        Timestamp { secs, nanos }
    }

    /// Whole seconds since the epoch, or `None` before it.
    pub fn unix_seconds(&self) -> (r: Option<u64>)
        ensures
            r is Some <==> self@ >= 0,
            r matches Some(s) ==> s == self@ / (NANOS as int),
    {
        proof {
            use_type_invariant(self);
            let (s, n) = (self.secs as int, self.nanos as int);
            assert(s >= 0 ==> (s * 1_000_000_000 + n) / 1_000_000_000 == s) by (nonlinear_arith)
                requires
                    0 <= n < 1_000_000_000,
            ;
        }
        if self.secs >= 0 {
            Some(self.secs as u64)
        } else {
            None
        }
    }

    /// How two points compare.
    pub fn order(&self, other: &Timestamp) -> (r: Order)
        ensures
            r == order_int(self@, other@),
    {
        proof {
            use_type_invariant(self);
            use_type_invariant(other);
        }
        if self.secs < other.secs {
            Order::Before
        } else if self.secs > other.secs {
            Order::After
        } else if self.nanos < other.nanos {
            Order::Before
        } else if self.nanos > other.nanos {
            Order::After
        } else {
            Order::Same
        }
    }

    /// The span from this point to `now`, empty if `now` lies before it.
    pub fn until(&self, now: &Timestamp) -> (r: Duration)
        ensures
            r@ == span_between(self@, now@),
    {
        proof {
            use_type_invariant(self);
            use_type_invariant(now);
        }
        match self.order(now) {
            Order::Before => {
                let whole: i128 = now.secs as i128 - self.secs as i128;
                if now.nanos >= self.nanos {
                    Duration { secs: whole as u64, nanos: now.nanos - self.nanos }
                } else {
                    let secs: i128 = whole - 1;
                    Duration { secs: secs as u64, nanos: now.nanos + NANOS - self.nanos }
                }
            },
            _ => Duration::zero(),
        }
    }
}

/// The later of two optional points in time.
pub fn later(a: Option<Timestamp>, b: Option<Timestamp>) -> (r: Option<Timestamp>)
    ensures
        time_view(r) == later_of(time_view(a), time_view(b)),
{
    match (a, b) {
        (Some(x), Some(y)) => match x.order(&y) {
            Order::Before => Some(y),
            _ => Some(x),
        },
        (Some(x), None) => Some(x),
        (None, y) => y,
    }
}

/// `SystemTime::now`, as seconds and nanoseconds after the epoch, or before it
/// where the clock is set that far back. What time it is is not stated.
#[verifier::external_body]
fn read_clock() -> (r: Result<(u64, u32), (u64, u32)>)
    ensures
        r matches Ok((_, nanos)) ==> nanos < NANOS,
        r matches Err((_, nanos)) ==> nanos < NANOS,
{
    match std::time::SystemTime::now().duration_since(std::time::SystemTime::UNIX_EPOCH) {
        Ok(d) => Ok((d.as_secs(), d.subsec_nanos())),
        Err(e) => Err((e.duration().as_secs(), e.duration().subsec_nanos())),
    }
}

/// The point in time that a reading of the clock stands for, in nanoseconds since
/// the epoch. Seconds beyond what a [`Timestamp`] can hold are cut off.
pub open spec fn reading_time(reading: Result<(u64, u32), (u64, u32)>) -> int {
    match reading {
        Ok((secs, nanos)) => (if secs <= i64::MAX {
            secs as int
        } else {
            i64::MAX as int
        }) * NANOS + nanos,
        Err((secs, nanos)) => -((if secs < i64::MAX {
            secs as int
        } else {
            i64::MAX - 1
        }) * NANOS + nanos),
    }
}

/// The nanoseconds of a reading are less than a second.
pub open spec fn is_reading(reading: Result<(u64, u32), (u64, u32)>) -> bool {
    match reading {
        Ok((_, nanos)) => nanos < NANOS,
        Err((_, nanos)) => nanos < NANOS,
    }
}

/// The point in time that a reading of the clock stands for: seconds and
/// nanoseconds after the epoch, or before it.
pub fn time_of_reading(reading: Result<(u64, u32), (u64, u32)>) -> (r: Timestamp)
    requires
        is_reading(reading),
    ensures
        r@ == reading_time(reading),
{
    let limit: u64 = 0x7fff_ffff_ffff_ffff;
    match reading {
        Ok((secs, nanos)) => {
            let secs = if secs > limit {
                limit
            } else {
                secs
            };
            Timestamp { secs: secs as i64, nanos }
        },
        Err((secs, nanos)) => {
            let back: u64 = if secs >= limit {
                limit - 1
            } else {
                secs
            };
            if nanos == 0 {
                Timestamp { secs: -(back as i64), nanos: 0 }
            } else {
                Timestamp { secs: -(back as i64) - 1, nanos: NANOS - nanos }
            }
        },
    }
}

/// The current time, as far as a [`Timestamp`] can hold it: what some reading of
/// the clock stands for.
pub(crate) fn now() -> (r: Timestamp)
    ensures
        exists|reading: Result<(u64, u32), (u64, u32)>|
            is_reading(reading) && r@ == #[trigger] reading_time(reading),
{
    time_of_reading(read_clock())
}

/// The later of two points in time is one of them and not before either; a missing
/// one is before every other. Time runs forward: a point lies as far back as `now` is
/// behind it, and not at all where it is still to come.
pub proof fn law_time_runs_forward(a: Option<int>, b: Option<int>, t: int, now: int, n: nat)
    ensures
        later_of(a, b) == a || later_of(a, b) == b,
        a matches Some(x) ==> later_of(a, b) matches Some(m) && m >= x,
        b matches Some(y) ==> later_of(a, b) matches Some(m) && m >= y,
        t + span_between(t, now) == if now >= t {
            now
        } else {
            t
        },
        seconds(n) == n * 1_000_000_000,
{
}

} // verus!
