//! The recorder's hand-off: records go into a channel whose single receiver
//! writes them to the log.
use vstd::prelude::*;
use crossbeam_channel::Sender;
use crate::record::Record;

verus! {

#[verifier::external_type_specification]
#[verifier::external_body]
#[verifier::reject_recursive_types(T)]
pub struct ExSender<T>(crossbeam_channel::Sender<T>);

/// Relies on `crossbeam_channel::Sender::try_send`: it never blocks; a full
/// or disconnected channel hands the record back as an error, which is
/// dropped here. The result says whether the channel took the record.
#[verifier::external_body]
fn send_quietly(tx: &Sender<Record>, record: Record) -> (sent: bool) {
    tx.try_send(record).is_ok()
}

/// Where records go: nowhere until a channel is attached, then into it.
pub struct Collector {
    tx: Option<Sender<Record>>,
}

impl Collector {
    /// A collector with no channel: every record is dropped.
    pub fn new() -> (r: Collector)
        ensures
            !r.is_active(),
    {
        Collector { tx: None }
    }

    /// Whether a channel is attached.
    pub closed spec fn is_active(&self) -> bool {
        self.tx is Some
    }

    /// Whether a channel is attached.
    pub fn active(&self) -> (r: bool)
        ensures
            r == self.is_active(),
    {
        self.tx.is_some()
    }

    /// Hands a record to the channel without waiting. With no channel the
    /// record is dropped and the result is `None`; otherwise it is `Some` of
    /// whether the channel took it (a full or closed one drops it).
    pub fn add_record(&self, record: Record) -> (sent: Option<bool>)
        ensures
            sent is None <==> !self.is_active(),
    {
        if let Some(tx) = &self.tx {
            Some(send_quietly(tx, record))
        } else {
            None
        }
    }
}

impl Default for Collector {
    fn default() -> (r: Collector)
        ensures
            !r.is_active(),
    {
        Collector::new()
    }
}

/// Attaches the channel to a collector that has none. A collector that is
/// already active keeps its channel: a second setup is ignored. The result
/// says whether `tx` was attached.
pub fn init(collector: &mut Collector, tx: Sender<Record>) -> (r: bool)
    ensures
        r == !old(collector).is_active(),
        final(collector).is_active(),
        !r ==> *final(collector) == *old(collector),
{
    if collector.tx.is_some() {
        false
    } else {
        collector.tx = Some(tx);
        true
    }
}

} // verus!
