use vstd::prelude::*;

verus! {

/// Day-cycle ticks per second of play.
pub const TICKS_PER_SECOND: u64 = 20;

/// Ticks in one full day.
pub const TICKS_PER_DAY: u64 = 24_000;

pub const SUNRISE_TICKS: u64 = 0;

pub const NOON_TICKS: u64 = 6_000;

pub const SUNSET_TICKS: u64 = 12_000;

pub const MIDNIGHT_TICKS: u64 = 18_000;

/// The phase of the moon; the cycle starts at full moon and takes eight days.
#[derive(Debug, Clone, Copy, PartialEq, Eq, Structural)]
pub enum MoonPhase {
    Full,
    WaningGibbous,
    ThirdQuarter,
    WaningCrescent,
    New,
    WaxingCrescent,
    FirstQuarter,
    WaxingGibbous,
}

/// The position of a phase in the cycle, full moon first.
pub open spec fn moon_index(phase: MoonPhase) -> int {
    match phase {
        MoonPhase::Full => 0,
        MoonPhase::WaningGibbous => 1,
        MoonPhase::ThirdQuarter => 2,
        MoonPhase::WaningCrescent => 3,
        MoonPhase::New => 4,
        MoonPhase::WaxingCrescent => 5,
        MoonPhase::FirstQuarter => 6,
        MoonPhase::WaxingGibbous => 7,
    }
}

impl MoonPhase {
    pub fn index(self) -> (result: usize)
        ensures
            result == moon_index(self),
    {
        match self {
            MoonPhase::Full => 0,
            MoonPhase::WaningGibbous => 1,
            MoonPhase::ThirdQuarter => 2,
            MoonPhase::WaningCrescent => 3,
            MoonPhase::New => 4,
            MoonPhase::WaxingCrescent => 5,
            MoonPhase::FirstQuarter => 6,
            MoonPhase::WaxingGibbous => 7,
        }
    }

    /// The phase on absolute day `day`.
    pub fn from_day(day: u64) -> (result: MoonPhase)
        ensures
            moon_index(result) == day % 8,
    {
        match day % 8 {
            0 => MoonPhase::Full,
            1 => MoonPhase::WaningGibbous,
            2 => MoonPhase::ThirdQuarter,
            3 => MoonPhase::WaningCrescent,
            4 => MoonPhase::New,
            5 => MoonPhase::WaxingCrescent,
            6 => MoonPhase::FirstQuarter,
            _ => MoonPhase::WaxingGibbous,
        }
    }
}

/// The whole-tick part of the day/night clock: an absolute tick count that never wraps.
#[derive(Debug, Clone, Copy, PartialEq, Eq, Structural)]
pub struct DayCycle {
    day_time_ticks: u64,
}

impl DayCycle {
    pub closed spec fn spec_ticks(&self) -> u64 {
        self.day_time_ticks
    }

    pub fn from_ticks(day_time_ticks: u64) -> (result: DayCycle)
        ensures
            result.spec_ticks() == day_time_ticks,
    {
        DayCycle { day_time_ticks }
    }

    /// Absolute ticks since the world began.
    pub fn day_time_ticks(&self) -> (result: u64)
        ensures
            result == self.spec_ticks(),
    {
        self.day_time_ticks
    }

    /// Ticks into the current day.
    pub fn time_of_day_ticks(&self) -> (result: u64)
        ensures
            result == self.spec_ticks() % TICKS_PER_DAY,
    {
        self.day_time_ticks % TICKS_PER_DAY
    }

    /// The absolute day.
    pub fn day(&self) -> (result: u64)
        ensures
            result == self.spec_ticks() / TICKS_PER_DAY,
    {
        self.day_time_ticks / TICKS_PER_DAY
    }

    /// The moon phase of the absolute day.
    pub fn moon_phase(&self) -> (result: MoonPhase)
        ensures
            moon_index(result) == (self.spec_ticks() / TICKS_PER_DAY) % 8,
    {
        MoonPhase::from_day(self.day())
    }

    /// Advances the clock by whole ticks, saturating at `u64::MAX`; says whether it moved.
    pub fn advance_ticks(&mut self, increment: u64) -> (changed: bool)
        ensures
            final(self).spec_ticks() == if old(self).spec_ticks() + increment > u64::MAX {
                u64::MAX as int
            } else {
                old(self).spec_ticks() + increment
            },
            changed == (final(self).spec_ticks() != old(self).spec_ticks()),
    {
        let previous = self.day_time_ticks;
        self.day_time_ticks = self.day_time_ticks.saturating_add(increment);
        self.day_time_ticks != previous
    }
}

impl Default for DayCycle {
    fn default() -> (result: DayCycle)
        ensures
            result.spec_ticks() == SUNRISE_TICKS,
    {
        DayCycle::from_ticks(SUNRISE_TICKS)
    }
}

} // verus!
