//! The calendar of the simulation, counted in ticks.

use vstd::prelude::*;

verus! {

/// Hours in a day.
pub const HOURS_PER_DAY: u32 = 24;

/// Ticks in an hour.
pub const TICKS_PER_HOUR: u32 = 60;

/// Days in a year.
pub const DAYS_PER_YEAR: u32 = 30;

/// Hour of the day at a tick, from 0 to 23.
pub open spec fn hour_at(tick: nat) -> nat {
    (tick / TICKS_PER_HOUR as nat) % HOURS_PER_DAY as nat
}

/// Day of the year at a tick, from 0 to 29.
pub open spec fn day_at(tick: nat) -> nat {
    (tick / TICKS_PER_HOUR as nat / HOURS_PER_DAY as nat) % DAYS_PER_YEAR as nat
}

/// Years that have passed at a tick.
pub open spec fn year_at(tick: nat) -> nat {
    tick / TICKS_PER_HOUR as nat / HOURS_PER_DAY as nat / DAYS_PER_YEAR as nat
}

/// Hour of the day at a tick.
pub fn hours_from_tick(tick: u32) -> (hour: u32)
    ensures
        hour == hour_at(tick as nat),
        hour < HOURS_PER_DAY,
{
    (tick / TICKS_PER_HOUR) % HOURS_PER_DAY
}

/// Day of the year at a tick.
pub fn days_from_tick(tick: u32) -> (day: u32)
    ensures
        day == day_at(tick as nat),
        day < DAYS_PER_YEAR,
{
    (tick / TICKS_PER_HOUR / HOURS_PER_DAY) % DAYS_PER_YEAR
}

/// Years that have passed at a tick.
pub fn years_from_tick(tick: u32) -> (year: u32)
    ensures
        year == year_at(tick as nat),
{
    tick / TICKS_PER_HOUR / HOURS_PER_DAY / DAYS_PER_YEAR
}

/// Year, day and hour together account for every whole hour that has
/// passed: nothing is lost between the three.
pub proof fn lemma_calendar_adds_up(tick: nat)
    ensures
        tick / TICKS_PER_HOUR as nat == (year_at(tick) * DAYS_PER_YEAR as nat + day_at(tick))
            * HOURS_PER_DAY as nat + hour_at(tick),
{
    let hours = tick / 60;
    let days = hours / 24;
    assert(hours == days * 24 + hours % 24);
    assert(days == (days / 30) * 30 + days % 30);
}

} // verus!
