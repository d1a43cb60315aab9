//! The data directories of running and of past instances.

use crate::text::{cat4, has_prefix, starts_with};
use vstd::prelude::*;

verus! {

/// The file that an instance holds locked in its directory.
pub const LOCK_FILE: &'static str = ".instance-lock";

/// How old a directory without a lock file must be, in seconds.
pub const CUTOFF_SECONDS: u64 = 86_400;

/// Whether a directory is an instance's, by its name.
pub fn is_instance_dir(name: &str) -> (r: bool)
    ensures
        r == has_prefix(name@, "instance-"@),
{
    starts_with(name, "instance-")
}

/// A length of time, as far as it could be told.
#[derive(Clone, Copy, Debug, PartialEq, Eq, Structural)]
pub struct Age {
    pub seconds: u64,
    pub nanos: u32,
}

/// What opening the lock file of a directory showed.
#[derive(Clone, Copy, Debug, PartialEq, Eq, Structural)]
pub enum Probe {
    /// It could be locked: nobody holds it.
    Free,
    /// It could not be locked.
    Held,
    /// There is none; the time since the directory was written to, if known.
    Missing(Option<Age>),
    Unreadable,
}

pub open spec fn is_older(age: Age) -> bool {
    age.seconds > CUTOFF_SECONDS || (age.seconds == CUTOFF_SECONDS && age.nanos > 0)
}

/// Whether nothing has been written for longer than the cutoff. An age that
/// cannot be told is not long.
pub fn aged_out(age: Option<Age>) -> (r: bool)
    ensures
        r == match age {
            Some(a) => is_older(a),
            None => false,
        },
{
    match age {
        Some(a) => a.seconds > CUTOFF_SECONDS || (a.seconds == CUTOFF_SECONDS && a.nanos > 0),
        None => false,
    }
}

/// Whether nothing uses a directory any more.
pub open spec fn is_dead(probe: Probe) -> bool {
    match probe {
        Probe::Free => true,
        Probe::Held => false,
        Probe::Missing(Some(age)) => is_older(age),
        Probe::Missing(None) => false,
        Probe::Unreadable => false,
    }
}

/// Whether nothing uses a directory any more. What is locked, or cannot be
/// made sense of, is left alone.
pub fn instance_is_dead(probe: Probe) -> (r: bool)
    ensures
        r == is_dead(probe),
{
    match probe {
        Probe::Free => true,
        Probe::Held => false,
        Probe::Missing(age) => aged_out(age),
        Probe::Unreadable => false,
    }
}

/// A directory whose lock is held is never taken for dead, however long ago
/// it was written to.
pub proof fn live_instances_are_left_alone(probe: Probe)
    requires
        is_dead(probe),
    ensures
        probe != Probe::Held,
        probe != Probe::Unreadable,
        probe matches Probe::Missing(age) ==> age is Some,
{
}

/// The title of a window opened on a workspace.
pub fn window_title(version: &str, workspace: &str) -> (r: String)
    ensures
        r@ == "AIS Analytics "@ + version@ + " — "@ + workspace@,
{
    cat4("AIS Analytics ", version, " — ", workspace)
}

/// A directory without a lock is dead once it was left for more than a day,
/// to the nanosecond; one whose lock is free is dead at any age.
pub proof fn a_day_is_the_cutoff(age: Age)
    requires
        age.nanos < 1_000_000_000,
    ensures
        is_dead(Probe::Missing(Some(age))) <==> age.seconds * 1_000_000_000 + age.nanos > 86_400
            * 1_000_000_000,
        is_dead(Probe::Free),
        !is_dead(Probe::Held),
{
}

} // verus!
