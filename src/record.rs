//! The record: one measured duration with its label and call site.
use vstd::prelude::*;
use crate::format::RecordModel;

verus! {

#[verifier::external_type_specification]
#[verifier::external_body]
pub struct ExInstant(std::time::Instant);

/// Relies on `Instant::elapsed`: the monotonic time since `start`. Nothing is
/// known of its value.
#[verifier::external_body]
fn elapsed(start: &std::time::Instant) -> std::time::Duration {
    start.elapsed()
}

/// Relies on `Duration::as_nanos`: the whole duration in nanoseconds.
#[verifier::external_body]
fn nanos_of(d: &std::time::Duration) -> u128 {
    d.as_nanos()
}

/// One observation: `y` is a duration in nanoseconds, `x` an optional
/// correlation value, `id` the label that statistics group by, `path` the
/// call site's module location.
pub struct Record {
    pub x: Option<u64>,
    pub y: u64,
    pub id: String,
    pub path: String,
}

impl View for Record {
    type V = RecordModel;

    open spec fn view(&self) -> RecordModel {
        RecordModel { x: self.x, y: self.y, id: self.id@, path: self.path@ }
    }
}

impl Record {
    /// A record of the time elapsed since `time`.
    pub fn new(time: &std::time::Instant, x: Option<u64>, id: &str, path: &str) -> (r: Record)
        ensures
            r.x == x,
            r.id@ == id@,
            r.path@ == path@,
    {
        // as the log keeps it: nanoseconds cut to 64 bits
        let y = nanos_of(&elapsed(time)) as u64;
        Record { x, y, id: id.to_string(), path: path.to_string() }
    }

    /// A record of a duration already measured.
    pub fn with_duration(x: Option<u64>, y: u64, id: &str, path: &str) -> (r: Record)
        ensures
            r@ == (RecordModel { x, y, id: id@, path: path@ }),
    {
        Record { x, y, id: id.to_string(), path: path.to_string() }
    }
}

} // verus!
