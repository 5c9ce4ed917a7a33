//! Timing a piece of work. On this platform the wall clock is the only
//! source; hardware cycle counters are not available.
use std::time::{Duration, Instant};

use vstd::prelude::*;

verus! {

/// `std::time::Instant`, a reading of the monotonic clock, carried as an
/// opaque value.
#[verifier::external_type_specification]
#[verifier::external_body]
pub struct ExInstant(std::time::Instant);

/// The clock a measurement was taken with.
#[derive(Clone, Copy, Debug, PartialEq, Eq, Structural)]
pub enum PerfClock {
    /// Hardware fixed counters (cycles and retired instructions).
    DarwinFixedCounters,
    /// The standard monotonic wall clock.
    StdInstant,
}

/// How long a piece of work took: wall-clock nanoseconds, and cycles and
/// retired instructions where the hardware counters were read.
#[derive(Clone, Copy, Debug)]
pub struct PerfMeasurement {
    nanos: u64,
    cycles: Option<u64>,
    instructions: Option<u64>,
    clock: PerfClock,
}

/// The duration of `nanos` nanoseconds (`Duration::from_nanos`).
pub uninterp spec fn duration_of_nanos(nanos: u64) -> Duration;

/// `Duration::from_nanos`: the duration of the given number of
/// nanoseconds; `as_nanos` reads that number back.
#[verifier::external_body]
fn duration_from_nanos(nanos: u64) -> (d: Duration)
    ensures
        d == duration_of_nanos(nanos),
        nanos_in(d) == nanos as u128,
{
    Duration::from_nanos(nanos)
}

/// `Instant::now`: the current reading of the monotonic clock.
#[verifier::external_body]
fn instant_now() -> Instant {
    Instant::now()
}

/// `Instant::elapsed`: the time since `start`; what it returns depends on
/// the clock alone.
#[verifier::external_body]
fn elapsed_since(start: Instant) -> Duration {
    start.elapsed()
}

/// The whole nanoseconds in a duration (`Duration::as_nanos`).
pub uninterp spec fn nanos_in(d: Duration) -> u128;

/// `Duration::as_nanos`: the whole nanoseconds of a duration.
#[verifier::external_body]
fn whole_nanos(d: Duration) -> (n: u128)
    ensures
        n == nanos_in(d),
{
    d.as_nanos()
}

/// `n` as a `u64`, or `u64::MAX` when it does not fit.
pub open spec fn saturated(n: u128) -> u64 {
    if n <= u64::MAX as u128 {
        n as u64
    } else {
        u64::MAX
    }
}

fn saturate(n: u128) -> (r: u64)
    ensures
        r == saturated(n),
{
    if n <= 0xffff_ffff_ffff_ffffu128 {
        n as u64
    } else {
        0xffff_ffff_ffff_ffffu64
    }
}

/// Nanoseconds since `start`, saturated to `u64`: the whole nanoseconds of
/// the duration the clock reports, or `u64::MAX` when they do not fit.
fn elapsed_nanos(start: Instant) -> (n: u64)
    ensures
        exists|d: Duration| n == saturated(#[trigger] nanos_in(d)),
{
    let elapsed = elapsed_since(start);
    let n = saturate(whole_nanos(elapsed));
    assert(n == saturated(nanos_in(elapsed)));
    n
}

impl PerfMeasurement {
    /// Wall-clock nanoseconds.
    pub closed spec fn nanos_of(self) -> u64 {
        self.nanos
    }

    /// Cycles, where counted.
    pub closed spec fn cycles_of(self) -> Option<u64> {
        self.cycles
    }

    /// Retired instructions, where counted.
    pub closed spec fn instructions_of(self) -> Option<u64> {
        self.instructions
    }

    /// The clock the measurement was taken with.
    pub closed spec fn clock_of(self) -> PerfClock {
        self.clock
    }

    /// The measurement's own unit: cycles where counted, else nanoseconds.
    pub fn ticks(self) -> (t: u64)
        ensures
            t == match self.cycles_of() {
                Some(c) => c,
                None => self.nanos_of(),
            },
    {
        match self.cycles {
            Some(cycles) => cycles,
            None => self.nanos,
        }
    }

    /// Wall-clock nanoseconds.
    pub fn nanos(self) -> (n: u64)
        ensures
            n == self.nanos_of(),
    {
        self.nanos
    }

    /// Cycles, where counted.
    pub fn cycles(self) -> (c: Option<u64>)
        ensures
            c == self.cycles_of(),
    {
        self.cycles
    }

    /// Retired instructions, where counted.
    pub fn instructions(self) -> (i: Option<u64>)
        ensures
            i == self.instructions_of(),
    {
        self.instructions
    }

    /// The wall-clock time as a duration.
    pub fn duration(self) -> (d: Duration)
        ensures
            d == duration_of_nanos(self.nanos_of()),
            nanos_in(d) == self.nanos_of() as u128,
    {
        duration_from_nanos(self.nanos)
    }

    /// The clock the measurement was taken with.
    pub fn clock(self) -> (c: PerfClock)
        ensures
            c == self.clock_of(),
    {
        self.clock
    }

    /// The name of the measurement's unit.
    pub fn tick_label(self) -> (s: &'static str)
        ensures
            s@ == match self.clock_of() {
                PerfClock::DarwinFixedCounters => "cycles"@,
                PerfClock::StdInstant => "ticks"@,
            },
    {
        match self.clock {
            PerfClock::DarwinFixedCounters => "cycles",
            PerfClock::StdInstant => "ticks",
        }
    }

    fn from_instant(start: Instant) -> (m: Self)
        ensures
            exists|d: Duration| m.nanos_of() == saturated(#[trigger] nanos_in(d)),
            m.cycles_of() is None,
            m.instructions_of() is None,
            m.clock_of() == PerfClock::StdInstant,
    {
        PerfMeasurement {
            nanos: elapsed_nanos(start),
            cycles: None,
            instructions: None,
            clock: PerfClock::StdInstant,
        }
    }
}

/// A running measurement.
#[derive(Debug)]
pub struct PerfTimer {
    wall_start: Instant,
}

impl PerfTimer {
    /// Starts measuring now.
    pub fn start() -> Self {
        PerfTimer { wall_start: instant_now() }
    }

    /// Stops measuring: the wall-clock time since the start, in whole
    /// nanoseconds saturated to `u64` (the elapsed time itself comes from
    /// the clock).
    pub fn stop(self) -> (m: PerfMeasurement)
        ensures
            exists|d: Duration| m.nanos_of() == saturated(#[trigger] nanos_in(d)),
            m.cycles_of() is None,
            m.instructions_of() is None,
            m.clock_of() == PerfClock::StdInstant,
    {
        PerfMeasurement::from_instant(self.wall_start)
    }

    /// Runs `f` and measures it; returns the measurement and what `f`
    /// returned.
    pub fn measure<F, T>(f: F) -> (r: (PerfMeasurement, T))
        where
            F: FnOnce() -> T,
        requires
            f.requires(()),
        ensures
            f.ensures((), r.1),
            exists|d: Duration| r.0.nanos_of() == saturated(#[trigger] nanos_in(d)),
            r.0.clock_of() == PerfClock::StdInstant,
            r.0.cycles_of() is None,
            r.0.instructions_of() is None,
    {
        let timer = Self::start();
        let value = f();
        (timer.stop(), value)
    }

    /// Whether hardware cycle counters can be read here: never on this
    /// platform.
    pub fn hardware_cycles_supported() -> (b: bool)
        ensures
            !b,
    {
        false
    }

    /// Why hardware cycle counters can or cannot be read here.
    pub fn hardware_cycles_status() -> (s: &'static str)
        ensures
            s@ == "unsupported platform"@,
    {
        "unsupported platform"
    }
}

} // verus!
