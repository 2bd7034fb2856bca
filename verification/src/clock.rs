//! Readings of the system clock, and the numbers that are made of them.

use vstd::prelude::*;

verus! {

/// The time that has passed since the start of 1970.
#[derive(Clone, Copy, Debug)]
pub struct Elapsed {
    pub secs: u64,
    /// The part of a second beyond `secs`.
    pub nanos: u32,
}

impl Elapsed {
    /// The part of a second is less than a second.
    pub open spec fn wf(self) -> bool {
        self.nanos < 1_000_000_000
    }
}

/// A reading is absent where the clock stands before 1970.
pub open spec fn reading_wf(reading: Option<Elapsed>) -> bool {
    reading matches Some(e) ==> e.wf()
}

/// The seconds of a reading; 0 where there is none.
pub open spec fn seconds(reading: Option<Elapsed>) -> u64 {
    match reading {
        Some(e) => e.secs,
        None => 0,
    }
}

/// The nanoseconds of a reading, kept to 64 bits; `fallback` where there is
/// none.
pub open spec fn task_id(reading: Option<Elapsed>, fallback: u64) -> u64 {
    match reading {
        Some(e) => ((e.secs * 1_000_000_000 + e.nanos) % 0x1_0000_0000_0000_0000) as u64,
        None => fallback,
    }
}

/// `id` is the number of a task that was made at some reading. Since the clock
/// may stand at any time, every number is.
pub open spec fn clock_id(id: u64) -> bool {
    exists|reading: Option<Elapsed>, fallback: u64|
        reading_wf(reading) && id == #[trigger] task_id(reading, fallback)
}

/// `std::time::SystemTime`, a reading of the system clock.
#[verifier::external_type_specification]
#[verifier::external_body]
pub struct ExSystemTime(std::time::SystemTime);

/// `std::time::SystemTime::now` reads the clock; nothing is known of when.
pub assume_specification[ std::time::SystemTime::now ]() -> (t: std::time::SystemTime)
;

/// Calls `std::time::SystemTime::duration_since` with the start of 1970, and
/// gives the whole seconds and the remaining nanoseconds, of which there are
/// fewer than a second's worth. There is no result for a time before 1970.
#[verifier::external_body]
fn since_epoch(t: std::time::SystemTime) -> (r: Option<Elapsed>)
    ensures
        reading_wf(r),
{
    t.duration_since(std::time::UNIX_EPOCH).ok().map(
        |d| Elapsed { secs: d.as_secs(), nanos: d.subsec_nanos() },
    )
}

/// A reading of the clock.
pub fn read_clock() -> (r: Option<Elapsed>)
    ensures
        reading_wf(r),
{
    since_epoch(std::time::SystemTime::now())
}

/// The seconds of a reading; 0 where there is none.
pub fn seconds_of(reading: Option<Elapsed>) -> (r: u64)
    ensures
        r == seconds(reading),
{
    match reading {
        Some(e) => e.secs,
        None => 0,
    }
}

/// The number of a task that is made at the time of `reading`.
pub fn task_id_of(reading: Option<Elapsed>, fallback: u64) -> (r: u64)
    requires
        reading_wf(reading),
    ensures
        r == task_id(reading, fallback),
{
    match reading {
        Some(e) => {
            let nanos: u128 = e.secs as u128 * 1_000_000_000u128 + e.nanos as u128;
            (nanos % 0x1_0000_0000_0000_0000u128) as u64
        },
        None => fallback,
    }
}

/// The seconds since the start of 1970; 0 where the clock stands before it. When
/// that is, is not known: the clock may give any number.
pub fn now_ts() -> (r: u64)
    ensures
        exists|reading: Option<Elapsed>| reading_wf(reading) && r == seconds(reading),
{
    let reading = read_clock();
    seconds_of(reading)
}

/// A number for a new task: the nanoseconds since the start of 1970, kept to 64
/// bits, or the seconds where that time cannot be told. It may be any number.
pub fn next_task_id() -> (r: u64)
    ensures
        clock_id(r),
{
    let reading = read_clock();
    let fallback: u64 = now_ts();
    task_id_of(reading, fallback)
}

// ------------------------------------------------------------------------- laws

/// A task is numbered by the nanoseconds since the start of 1970, as long as they
/// fit; numbers that are taken at different times then differ.
pub proof fn law_numbers_tell_times_apart(a: Elapsed, b: Elapsed, fallback: u64)
    requires
        a.wf(),
        b.wf(),
        a.secs < 18_000_000_000,
        b.secs < 18_000_000_000,
    ensures
        task_id(Some(a), fallback) == a.secs * 1_000_000_000 + a.nanos,
        task_id(Some(a), fallback) == task_id(Some(b), fallback) ==> a == b,
        task_id(None, fallback) == fallback,
        seconds(Some(a)) == a.secs,
        seconds(None) == 0,
{
}

} // verus!
