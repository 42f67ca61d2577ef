//! The duplex byte-channel capability that a session owns for its duration,
//! and an in-memory channel for loopback and simulated-peer exchanges.

use vstd::prelude::*;
use crate::codec::TransferError;

verus! {

/// A duplex byte stream: the sole transport abstraction of a session.
///
/// `readable()` models the bytes the channel will still yield, in order, and
/// `written()` the bytes written so far. A read blocks until its byte is
/// available and fails exactly when the stream is exhausted, which stands for
/// the channel reporting a hard error.
pub trait Channel {
    /// The bytes this channel will still yield, in order.
    spec fn readable(&self) -> Seq<u8>;

    /// The bytes written into this channel so far, in order.
    spec fn written(&self) -> Seq<u8>;

    /// Reads the next byte of the stream; fails exactly when it is exhausted.
    fn read_byte(&mut self) -> (r: Result<u8, TransferError>)
        ensures
            match r {
                Ok(b) => old(self).readable().len() > 0 && b == old(self).readable()[0]
                    && final(self).readable() == old(self).readable().skip(1)
                    && final(self).written() == old(self).written(),
                Err(e) => e == TransferError::ChannelFailure
                    && old(self).readable().len() == 0
                    && final(self).readable() == old(self).readable()
                    && final(self).written() == old(self).written(),
            },
    ;

    /// Writes one byte.
    fn write_byte(&mut self, byte: u8)
        ensures
            final(self).written() == old(self).written().push(byte),
            final(self).readable() == old(self).readable(),
    ;

    /// Flushes buffered output; the modelled streams are unchanged.
    fn flush(&mut self)
        ensures
            final(self).written() == old(self).written(),
            final(self).readable() == old(self).readable(),
    ;
}

/// An in-memory channel: reads yield the bytes of a fixed script, and every
/// written byte is recorded. It serves as the loopback pipe and as a
/// simulated peer whose replies are laid out in advance.
pub struct ScriptChannel {
    /// The bytes still to be yielded, in order.
    pub script: Vec<u8>,
    /// The bytes written so far, in order.
    pub log: Vec<u8>,
}

impl ScriptChannel {
    /// A channel that will yield exactly `script` and has seen no writes.
    pub fn new(script: Vec<u8>) -> (c: ScriptChannel)
        ensures
            c.readable() == script@,
            c.written() == Seq::<u8>::empty(),
    {
        ScriptChannel { script, log: Vec::new() }
    }

    /// The bytes written into this channel so far.
    pub fn sent(&self) -> (s: &Vec<u8>)
        ensures
            s@ == self.written(),
    {
        &self.log
    }

    /// The bytes this channel will still yield.
    pub fn pending(&self) -> (s: &Vec<u8>)
        ensures
            s@ == self.readable(),
    {
        &self.script
    }
}

impl Channel for ScriptChannel {
    open spec fn readable(&self) -> Seq<u8> {
        self.script@
    }

    open spec fn written(&self) -> Seq<u8> {
        self.log@
    }

    fn read_byte(&mut self) -> (r: Result<u8, TransferError>) {
        if self.script.len() > 0 {
            let b = self.script.remove(0);
            proof {
                assert(old(self).script@.remove(0) =~= old(self).script@.skip(1));
            }
            Ok(b)
        } else {
            Err(TransferError::ChannelFailure)
        }
    }

    fn write_byte(&mut self, byte: u8) {
        self.log.push(byte);
    }

    fn flush(&mut self) {
    }
}

} // verus!
