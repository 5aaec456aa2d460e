//! Points in time, at the precision and within the range of `chrono`.

use vstd::prelude::*;

verus! {

/// Nanoseconds in a second.
pub const NANOS_PER_SEC: u32 = 1_000_000_000;

/// The first second that `chrono` can represent, counted from the Unix epoch.
pub const MIN_SECS: i64 = -8_334_601_228_800;

/// The last second that `chrono` can represent, counted from the Unix epoch.
pub const MAX_SECS: i64 = 8_210_266_876_799;

/// Nanoseconds from the Unix epoch to the instant `nanos` nanoseconds into the
/// second `secs`.
pub open spec fn instant(secs: i64, nanos: u32) -> int {
    secs * 1_000_000_000 + nanos
}

/// Whether `chrono` can represent the instant within an ordinary second, as any
/// reading of the clock is.
pub open spec fn representable(secs: i64, nanos: u32) -> bool {
    MIN_SECS <= secs <= MAX_SECS && nanos < 1_000_000_000
}

/// Whether `chrono` can represent the instant. Within the last second of a minute
/// the nanoseconds may go on for another second, which is then a leap second.
pub open spec fn on_calendar(secs: i64, nanos: u32) -> bool {
    MIN_SECS <= secs <= MAX_SECS && nanos < 2_000_000_000 && (nanos >= 1_000_000_000 ==> secs % 60
        == 59)
}

/// A point on the calendar: a second counted from the Unix epoch, in which leap
/// seconds are left out, and the nanoseconds into it. In a leap second these are a
/// billion or more.
pub struct Instant {
    pub secs: int,
    pub nanos: int,
}

impl Instant {
    /// Whether this instant comes before the other.
    pub open spec fn before(self, other: Instant) -> bool {
        self.secs < other.secs || (self.secs == other.secs && self.nanos < other.nanos)
    }
}

/// The point on the calendar of a clock reading.
pub open spec fn reading(now: int) -> Instant {
    Instant { secs: now / 1_000_000_000, nanos: now % 1_000_000_000 }
}

/// The nanoseconds from one instant to another. A leap second at the earlier of the
/// two counts where the other comes at a later time of the day.
pub open spec fn elapsed(earlier: Instant, later: Instant) -> int {
    let counted: int = if later.secs % 86_400 > earlier.secs % 86_400 && earlier.nanos
        >= 1_000_000_000 {
        1
    } else if later.secs % 86_400 < earlier.secs % 86_400 && later.nanos >= 1_000_000_000 {
        -1
    } else {
        0
    };
    seconds(later.secs - earlier.secs + counted) + later.nanos - earlier.nanos
}

/// A number of seconds, in nanoseconds.
pub open spec fn seconds(n: int) -> int {
    n * 1_000_000_000
}

/// The first representable instant.
pub open spec fn earliest() -> int {
    seconds(MIN_SECS as int)
}

/// The whole seconds in a span of nanoseconds, rounded toward zero.
pub open spec fn whole_seconds(span: int) -> int {
    if span >= 0 {
        span / 1_000_000_000
    } else {
        -((-span) / 1_000_000_000)
    }
}

/// A reading of the clock, in UTC. Its view is the number of nanoseconds since the
/// Unix epoch.
#[derive(Clone, Copy, Debug, PartialEq, Eq)]
pub struct Reading {
    secs: i64,
    nanos: u32,
}

impl View for Reading {
    type V = int;

    closed spec fn view(&self) -> int {
        instant(self.secs, self.nanos)
    }
}

/// Reads the system clock with `chrono::Utc::now`. The reading is an ordinary
/// second at or after the Unix epoch; before the epoch the outside function
/// panics. Which instant is read is up to the clock.
#[verifier::external_body]
fn utc_now() -> (r: (i64, u32))
    ensures
        representable(r.0, r.1),
        r.0 >= 0,
{
    let now = chrono::Utc::now();
    (now.timestamp(), now.timestamp_subsec_nanos())
}

/// Steps back from an instant with `chrono`'s `DateTime - Duration`, the
/// duration made by `Duration::seconds`: the result lies that many seconds
/// earlier, at the same nanosecond. The outside functions panic on an instant
/// or a result out of range.
#[verifier::external_body]
fn utc_minus_seconds(secs: i64, nanos: u32, back: u32) -> (r: (i64, u32))
    requires
        representable(secs, nanos),
        secs - back >= MIN_SECS,
    ensures
        r.0 == secs - back,
        r.1 == nanos,
{
    let from = chrono::DateTime::from_timestamp(secs, nanos).unwrap();
    let to = from - chrono::Duration::seconds(back as i64);
    (to.timestamp(), to.timestamp_subsec_nanos())
}

/// Measures the time between two instants with `chrono`'s
/// `DateTime::signed_duration_since` and `TimeDelta::num_seconds`: the whole
/// seconds of their difference, rounded toward zero. How a leap second counts is
/// that of `NaiveTime::signed_duration_since`.
#[verifier::external_body]
fn utc_seconds_between(later: (i64, u32), earlier: (i64, u32)) -> (r: i64)
    requires
        on_calendar(later.0, later.1),
        on_calendar(earlier.0, earlier.1),
    ensures
        r == whole_seconds(
            elapsed(
                Instant { secs: earlier.0 as int, nanos: earlier.1 as int },
                Instant { secs: later.0 as int, nanos: later.1 as int },
            ),
        ),
{
    let later = chrono::DateTime::from_timestamp(later.0, later.1).unwrap();
    let earlier = chrono::DateTime::from_timestamp(earlier.0, earlier.1).unwrap();
    later.signed_duration_since(earlier).num_seconds()
}

impl Reading {
    #[verifier::type_invariant]
    spec fn in_range(self) -> bool {
        representable(self.secs, self.nanos)
    }

    /// The instant `nanos` nanoseconds into the second `secs` of the Unix
    /// epoch, where it is representable.
    pub fn new(secs: i64, nanos: u32) -> (r: Option<Reading>)
        ensures
            r is Some <==> representable(secs, nanos),
            r matches Some(t) ==> t@ == instant(secs, nanos),
    {
        if MIN_SECS <= secs && secs <= MAX_SECS && nanos < NANOS_PER_SEC {
            Some(Reading { secs, nanos })
        } else {
            None
        }
    }

    /// A reading of the system clock.
    pub fn now() -> (r: Reading)
        ensures
            0 <= r@,
    {
        let (secs, nanos) = utc_now();
        Reading { secs, nanos }
    }

    /// Whole seconds since the Unix epoch.
    pub fn secs(&self) -> (r: i64)
        ensures
            r == self@ / 1_000_000_000,
    {
        proof {
            use_type_invariant(self);
        }
        self.secs
    }

    /// Nanoseconds into the second.
    pub fn nanos(&self) -> (r: u32)
        ensures
            r == self@ % 1_000_000_000,
    {
        proof {
            use_type_invariant(self);
        }
        self.nanos
    }

    /// Whether this instant comes before `other`.
    pub fn before(&self, other: &Reading) -> (r: bool)
        ensures
            r == (self@ < other@),
    {
        proof {
            use_type_invariant(self);
            use_type_invariant(other);
        }
        self.secs < other.secs || (self.secs == other.secs && self.nanos < other.nanos)
    }

    /// The instant `back` seconds earlier.
    pub fn minus_seconds(&self, back: u32) -> (r: Reading)
        requires
            self@ - seconds(back as int) >= earliest(),
        ensures
            r@ == self@ - seconds(back as int),
    {
        proof {
            use_type_invariant(self);
        }
        let (secs, nanos) = utc_minus_seconds(self.secs, self.nanos, back);
        Reading { secs, nanos }
    }

    /// The whole seconds from `earlier` to this reading, rounded toward zero.
    pub fn seconds_since(&self, earlier: &Timestamp) -> (r: i64)
        ensures
            r == whole_seconds(elapsed(earlier@, reading(self@))),
    {
        proof {
            use_type_invariant(self);
            use_type_invariant(earlier);
        }
        utc_seconds_between((self.secs, self.nanos), (earlier.secs, earlier.nanos))
    }
}

/// A point in time, in UTC, as a task records it.
#[derive(Clone, Copy, Debug, PartialEq, Eq)]
pub struct Timestamp {
    secs: i64,
    nanos: u32,
}

impl View for Timestamp {
    type V = Instant;

    closed spec fn view(&self) -> Instant {
        Instant { secs: self.secs as int, nanos: self.nanos as int }
    }
}

impl Timestamp {
    #[verifier::type_invariant]
    spec fn in_range(self) -> bool {
        on_calendar(self.secs, self.nanos)
    }

    /// The instant `nanos` nanoseconds into the second `secs` of the Unix
    /// epoch, where the calendar has it.
    pub fn new(secs: i64, nanos: u32) -> (r: Option<Timestamp>)
        ensures
            r is Some <==> on_calendar(secs, nanos),
            r matches Some(t) ==> t@ == (Instant { secs: secs as int, nanos: nanos as int }),
    {
        if secs < MIN_SECS || secs > MAX_SECS || nanos >= 2 * NANOS_PER_SEC {
            return None;
        }
        // The first second of the calendar begins a minute.
        let into_calendar: u64 = (secs - MIN_SECS) as u64;
        assert(into_calendar % 60 == secs % 60);
        if nanos >= NANOS_PER_SEC && into_calendar % 60 != 59 {
            return None;
        }
        Some(Timestamp { secs, nanos })
    }

    /// The point in time of a clock reading.
    pub fn at(now: Reading) -> (r: Timestamp)
        ensures
            r@ == reading(now@),
    {
        proof {
            use_type_invariant(&now);
        }
        Timestamp { secs: now.secs, nanos: now.nanos }
    }

    /// The second, counted from the Unix epoch.
    pub fn secs(&self) -> (r: i64)
        ensures
            r == self@.secs,
    {
        self.secs
    }

    /// Nanoseconds into the second, a billion or more in a leap second.
    pub fn nanos(&self) -> (r: u32)
        ensures
            r == self@.nanos,
    {
        self.nanos
    }

    /// Whether this instant comes before `other`.
    pub fn before(&self, other: &Timestamp) -> (r: bool)
        ensures
            r == self@.before(other@),
    {
        self.secs < other.secs || (self.secs == other.secs && self.nanos < other.nanos)
    }
}

/// The whole seconds of a span leave less than a second of it, on the side away from
/// zero.
pub proof fn law_whole_seconds(span: int)
    ensures
        span >= 0 ==> 0 <= span - whole_seconds(span) * 1_000_000_000 < 1_000_000_000,
        span <= 0 ==> -1_000_000_000 < span - whole_seconds(span) * 1_000_000_000 <= 0,
{
}

/// Clock readings are points on the calendar, in the same order and as far apart.
pub proof fn law_readings(a: int, b: int)
    ensures
        reading(a).secs * 1_000_000_000 + reading(a).nanos == a,
        0 <= reading(a).nanos < 1_000_000_000,
        reading(a).before(reading(b)) <==> a < b,
        elapsed(reading(a), reading(b)) == b - a,
{
}

/// Of two points on the calendar one comes before the other, unless they are the same.
pub proof fn law_calendar_is_ordered(a: Instant, b: Instant, c: Instant)
    ensures
        !a.before(a),
        a.before(b) ==> !b.before(a),
        a.before(b) && b.before(c) ==> a.before(c),
        a.before(b) || b.before(a) || a == b,
        a.secs < b.secs ==> a.before(b),
        a.secs == b.secs && a.nanos < b.nanos ==> a.before(b),
{
}

} // verus!
