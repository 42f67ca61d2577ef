//! The optional per-packet progress hook: a callback interface supplied at
//! session construction, defaulting to an inert implementation.

use vstd::prelude::*;

verus! {

/// Receives one notification per successfully transferred packet, carrying
/// the advanced sequence number. It runs in-line on the transfer's critical
/// path, so implementations should be fast; nothing of its behaviour is
/// relied on by the protocol.
pub trait ProgressHook {
    /// Called once per acknowledged packet with the new sequence number.
    fn on_packet(&mut self, seq_no: u8);
}

/// The inert default hook.
pub struct NoProgress;

impl ProgressHook for NoProgress {
    fn on_packet(&mut self, seq_no: u8) {
    }
}

/// A hook that records every reported sequence number, in order.
pub struct ProgressLog {
    /// The sequence numbers reported so far.
    pub seen: Vec<u8>,
}

impl ProgressLog {
    /// An empty log.
    pub fn new() -> (log: ProgressLog)
        ensures
            log.seen@ == Seq::<u8>::empty(),
    {
        ProgressLog { seen: Vec::new() }
    }
}

impl ProgressHook for ProgressLog {
    fn on_packet(&mut self, seq_no: u8)
        ensures
            final(self).seen@ == old(self).seen@.push(seq_no),
    {
        self.seen.push(seq_no);
    }
}

} // verus!
