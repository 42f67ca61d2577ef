//! The XMODEM session engine: framing, handshakes, bounded retry, and the
//! transmit and receive drivers over an abstract duplex channel.

use vstd::prelude::*;
use crate::codec::{
    SOH, EOT, ACK, NAK, CAN, PAYLOAD_LEN, TransferError, checksum_of, complement_of, frame_of,
    get_checksum,
};
use crate::channel::Channel;
use crate::progress::{ProgressHook, NoProgress};
use vstd::arithmetic::div_mod::lemma_add_mod_noop;

verus! {

/// One XMODEM session endpoint. It owns the channel for the call's duration
/// and tracks the next sequence number, whether the initial synchronization
/// byte has been consumed, and the progress hook.
pub struct Xmodem<T, P> {
    packet: u8,
    started: bool,
    inner: T,
    progress: P,
}

/// The next sequence number: modular addition, wrapping through 0 after 255.
pub open spec fn wrap_inc(seq_no: u8) -> u8 {
    ((seq_no + 1) % 256) as u8
}

/// The outcome of expecting one specific byte at the head of the stream `r`:
/// the result, how many bytes are consumed, and what is written back. On a
/// mismatch a CAN is written back before failing, except that a received CAN
/// is itself the fatal abort and (without `cancel_back_on_can`) nothing is
/// written for it; expecting CAN itself disables abort-on-CAN.
pub open spec fn spec_expect(r: Seq<u8>, byte: u8, cancel_back_on_can: bool) -> (Result<
    u8,
    TransferError,
>, int, Seq<u8>) {
    if r.len() == 0 {
        (Err(TransferError::ChannelFailure), 0, seq![])
    } else if r[0] == byte {
        (Ok(byte), 1, seq![])
    } else if r[0] == CAN && byte != CAN && !cancel_back_on_can {
        (Err(TransferError::ConnectionAborted), 1, seq![])
    } else if r[0] == CAN && byte != CAN {
        (Err(TransferError::ConnectionAborted), 1, seq![CAN])
    } else {
        (Err(TransferError::InvalidData), 1, seq![CAN])
    }
}

impl<T: Channel, P> Xmodem<T, P> {
    /// The sequence number of the next packet to send or accept.
    pub closed spec fn seq_no(&self) -> u8 {
        self.packet
    }

    /// Whether the initial synchronization byte has been consumed.
    pub closed spec fn has_started(&self) -> bool {
        self.started
    }

    /// The bytes the channel will still yield.
    pub closed spec fn readable(&self) -> Seq<u8> {
        self.inner.readable()
    }

    /// The bytes written to the channel so far.
    pub closed spec fn written(&self) -> Seq<u8> {
        self.inner.written()
    }
}

impl<T: Channel> Xmodem<T, NoProgress> {
    /// A fresh session over `inner` with the inert progress hook. The first
    /// packet carries sequence number 1.
    pub fn new(inner: T) -> (x: Xmodem<T, NoProgress>)
        ensures
            x.seq_no() == 1,
            !x.has_started(),
            x.readable() == inner.readable(),
            x.written() == inner.written(),
    {
        Xmodem { packet: 1, started: false, inner, progress: NoProgress }
    }
}

impl<T: Channel, P: ProgressHook> Xmodem<T, P> {
    /// A fresh session over `inner` reporting progress to `progress`.
    pub fn new_with_progress(inner: T, progress: P) -> (x: Xmodem<T, P>)
        ensures
            x.seq_no() == 1,
            !x.has_started(),
            x.readable() == inner.readable(),
            x.written() == inner.written(),
    {
        Xmodem { packet: 1, started: false, inner, progress }
    }

    /// Ends the session and gives the channel back.
    pub fn into_inner(self) -> (inner: T)
        ensures
            inner.readable() == self.readable(),
            inner.written() == self.written(),
    {
        let Xmodem { packet: _, started: _, inner, progress: _ } = self;
        inner
    }

    /// The progress hook this session reports to.
    pub fn progress(&self) -> &P {
        &self.progress
    }

    /// Flushes the channel.
    pub fn flush(&mut self)
        ensures
            final(self).seq_no() == old(self).seq_no(),
            final(self).has_started() == old(self).has_started(),
            final(self).readable() == old(self).readable(),
            final(self).written() == old(self).written(),
    {
        self.inner.flush();
    }

    /// Reads a single byte from the channel. With `abort_on_can`, a received
    /// CAN is the fatal `ConnectionAborted` instead of data.
    fn read_byte(&mut self, abort_on_can: bool) -> (r: Result<u8, TransferError>)
        ensures
            final(self).seq_no() == old(self).seq_no(),
            final(self).has_started() == old(self).has_started(),
            final(self).written() == old(self).written(),
            match r {
                Ok(b) => old(self).readable().len() > 0 && b == old(self).readable()[0]
                    && !(abort_on_can && b == CAN)
                    && final(self).readable() == old(self).readable().skip(1),
                Err(e) => if old(self).readable().len() == 0 {
                    e == TransferError::ChannelFailure
                        && final(self).readable() == old(self).readable()
                } else {
                    e == TransferError::ConnectionAborted && abort_on_can && old(self).readable()[0]
                        == CAN && final(self).readable() == old(self).readable().skip(1)
                },
            },
    {
        match self.inner.read_byte() {
            Ok(b) => {
                if abort_on_can && b == CAN {
                    Err(TransferError::ConnectionAborted)
                } else {
                    Ok(b)
                }
            },
            Err(e) => Err(e),
        }
    }

    /// Writes a single byte to the channel.
    fn write_byte(&mut self, byte: u8)
        ensures
            final(self).seq_no() == old(self).seq_no(),
            final(self).has_started() == old(self).has_started(),
            final(self).readable() == old(self).readable(),
            final(self).written() == old(self).written().push(byte),
    {
        self.inner.write_byte(byte);
    }

    /// Reads a byte and requires it to equal `byte`; the shared body of the
    /// two expectation variants, parameterized by how a received CAN is
    /// answered.
    fn expect_with(&mut self, byte: u8, cancel_back_on_can: bool) -> (r: Result<u8, TransferError>)
        ensures
            final(self).seq_no() == old(self).seq_no(),
            final(self).has_started() == old(self).has_started(),
            ({
                let out = spec_expect(old(self).readable(), byte, cancel_back_on_can);
                r == out.0 && final(self).readable() == old(self).readable().skip(out.1)
                    && final(self).written() == old(self).written() + out.2
            }),
    {
        let b = match self.read_byte(!cancel_back_on_can && byte != CAN) {
            Ok(b) => b,
            Err(e) => {
                proof {
                    assert(old(self).readable().skip(0) =~= old(self).readable());
                    assert(old(self).written() + Seq::<u8>::empty() =~= old(self).written());
                }
                return Err(e);
            },
        };
        if b != byte {
            self.write_byte(CAN);
            proof {
                assert(old(self).written() + seq![CAN] =~= old(self).written().push(CAN));
            }
            if b == CAN {
                return Err(TransferError::ConnectionAborted);
            }
            return Err(TransferError::InvalidData);
        }
        proof {
            assert(old(self).written() + Seq::<u8>::empty() =~= old(self).written());
        }
        Ok(b)
    }

    /// Reads a byte and requires it to match `byte`. A received CAN (when CAN
    /// is not itself the expected byte) aborts the transfer without a reply;
    /// any other mismatch is answered with CAN before failing.
    fn expect_byte(&mut self, byte: u8) -> (r: Result<u8, TransferError>)
        ensures
            final(self).seq_no() == old(self).seq_no(),
            final(self).has_started() == old(self).has_started(),
            ({
                let out = spec_expect(old(self).readable(), byte, false);
                r == out.0 && final(self).readable() == old(self).readable().skip(out.1)
                    && final(self).written() == old(self).written() + out.2
            }),
    {
        self.expect_with(byte, false)
    }

    /// Reads a byte and requires it to match `byte`; every mismatch, a
    /// received CAN included, is answered with CAN before failing. The
    /// sibling of `expect_byte`, kept for callers that must always reply
    /// CAN; the built-in sessions use the abort-on-CAN variant.
    #[allow(dead_code)]
    fn expect_byte_or_cancel(&mut self, byte: u8) -> (r: Result<u8, TransferError>)
        ensures
            final(self).seq_no() == old(self).seq_no(),
            final(self).has_started() == old(self).has_started(),
            ({
                let out = spec_expect(old(self).readable(), byte, true);
                r == out.0 && final(self).readable() == old(self).readable().skip(out.1)
                    && final(self).written() == old(self).written() + out.2
            }),
    {
        self.expect_with(byte, true)
    }
}

/// The outcome of the sender's end-of-transmission handshake on stream `r`:
/// send EOT, require NAK, send EOT, require ACK.
pub open spec fn spec_eot(r: Seq<u8>) -> (Result<usize, TransferError>, int, Seq<u8>) {
    let e1 = spec_expect(r, NAK, false);
    match e1.0 {
        Err(err) => (Err(err), e1.1, seq![EOT] + e1.2),
        Ok(_) => {
            let e2 = spec_expect(r.skip(e1.1), ACK, false);
            match e2.0 {
                Err(err) => (Err(err), e1.1 + e2.1, seq![EOT] + e1.2 + seq![EOT] + e2.2),
                Ok(_) => (Ok(0), e1.1 + e2.1, seq![EOT] + e1.2 + seq![EOT] + e2.2),
            }
        },
    }
}

/// The outcome of writing one data frame and awaiting the one-byte response:
/// the result, how many response bytes are consumed, what goes on the wire,
/// and the sequence number afterwards. NAK asks for a retransmission
/// (`Interrupted`), ACK advances the sequence number, CAN aborts, and any
/// other response is invalid protocol data.
pub open spec fn spec_write_data(r: Seq<u8>, seq_no: u8, payload: Seq<u8>) -> (Result<
    usize,
    TransferError,
>, int, Seq<u8>, u8) {
    let f = frame_of(seq_no, payload);
    if r.len() == 0 {
        (Err(TransferError::ChannelFailure), 0, f, seq_no)
    } else if r[0] == ACK {
        (Ok(128), 1, f, wrap_inc(seq_no))
    } else if r[0] == NAK {
        (Err(TransferError::Interrupted), 1, f, seq_no)
    } else if r[0] == CAN {
        (Err(TransferError::ConnectionAborted), 1, f, seq_no)
    } else {
        (Err(TransferError::InvalidData), 1, f, seq_no)
    }
}

/// The outcome of `write_packet` on stream `r`: result, bytes consumed,
/// bytes written, and the sequence number and started flag afterwards. An
/// empty payload triggers the end-of-transmission handshake, first consuming
/// the pending initial NAK if the transmission never started.
pub open spec fn spec_write_packet(r: Seq<u8>, seq_no: u8, started: bool, payload: Seq<u8>) -> (
    Result<usize, TransferError>,
    int,
    Seq<u8>,
    u8,
    bool,
) {
    if payload.len() == 0 {
        if !started {
            let h = spec_expect(r, NAK, false);
            match h.0 {
                Err(err) => (Err(err), h.1, h.2, seq_no, false),
                Ok(_) => {
                    let t = spec_eot(r.skip(h.1));
                    (t.0, h.1 + t.1, h.2 + t.2, seq_no, true)
                },
            }
        } else {
            let t = spec_eot(r);
            (t.0, t.1, t.2, seq_no, true)
        }
    } else {
        let w = spec_write_data(r, seq_no, payload);
        (w.0, w.1, w.2, w.3, started)
    }
}

/// The outcome of `read_packet` on stream `r` when expecting sequence number
/// `seq_no`: result, bytes consumed, bytes written back, the sequence number
/// afterwards, and the payload delivered into the caller's buffer (present
/// exactly when all 128 payload bytes were read, valid or not).
pub open spec fn spec_read_packet(r: Seq<u8>, seq_no: u8) -> (
    Result<usize, TransferError>,
    int,
    Seq<u8>,
    u8,
    Option<Seq<u8>>,
) {
    if r.len() == 0 {
        (Err(TransferError::ChannelFailure), 0, seq![], seq_no, None)
    } else if r[0] == EOT {
        let e = spec_expect(r.skip(1), EOT, false);
        match e.0 {
            Ok(_) => (Ok(0), 1 + e.1, seq![NAK] + e.2 + seq![ACK], seq_no, None),
            Err(err) => (Err(err), 1 + e.1, seq![NAK] + e.2, seq_no, None),
        }
    } else if r[0] == CAN {
        (Err(TransferError::ConnectionAborted), 1, seq![], seq_no, None)
    } else if r[0] != SOH {
        if r.len() < 2 {
            (Err(TransferError::ChannelFailure), 1, seq![], seq_no, None)
        } else if r[1] == CAN {
            (Err(TransferError::ConnectionAborted), 2, seq![CAN], seq_no, None)
        } else {
            (Err(TransferError::InvalidData), 2, seq![CAN], seq_no, None)
        }
    } else if r.len() < 2 {
        (Err(TransferError::ChannelFailure), 1, seq![], seq_no, None)
    } else if r[1] == CAN {
        (Err(TransferError::ConnectionAborted), 2, seq![], seq_no, None)
    } else if r.len() < 3 {
        (Err(TransferError::ChannelFailure), 2, seq![], seq_no, None)
    } else if r[2] == CAN {
        (Err(TransferError::ConnectionAborted), 3, seq![], seq_no, None)
    } else if r[1] != seq_no || r[2] != complement_of(seq_no) {
        (Err(TransferError::InvalidData), 3, seq![CAN], seq_no, None)
    } else if r.len() < 132 {
        (Err(TransferError::ChannelFailure), r.len() as int, seq![], seq_no, None)
    } else {
        let pl = r.subrange(3, 131);
        if r[131] != checksum_of(pl) {
            (Err(TransferError::Interrupted), 132, seq![NAK], seq_no, Some(pl))
        } else {
            (Ok(128), 132, seq![ACK], wrap_inc(seq_no), Some(pl))
        }
    }
}

/// The next sequence number, by wrapping addition.
fn next_seq(s: u8) -> (n: u8)
    ensures
        n == wrap_inc(s),
{
    if s == 255 {
        0
    } else {
        s + 1
    }
}

/// Replaces one element of a vector.
fn vec_set(v: &mut Vec<u8>, i: usize, b: u8)
    requires
        i < old(v)@.len(),
    ensures
        final(v)@ == old(v)@.update(i as int, b),
{
    let slot = &mut v[i];
    *slot = b;
}

impl<T: Channel, P: ProgressHook> Xmodem<T, P> {
    /// Sends (uploads) a single packet. An empty `buf` performs the
    /// end-of-transmission handshake; otherwise the 128-byte payload is
    /// framed, written, and the one-byte response awaited: NAK asks for a
    /// retransmission (`Interrupted`, sequence number kept), ACK acknowledges
    /// (sequence number advanced, progress reported), CAN aborts, anything
    /// else is invalid protocol data.
    pub fn write_packet(&mut self, buf: &[u8]) -> (r: Result<usize, TransferError>)
        requires
            buf@.len() == 0 || buf@.len() == PAYLOAD_LEN,
        ensures
            ({
                let out = spec_write_packet(
                    old(self).readable(),
                    old(self).seq_no(),
                    old(self).has_started(),
                    buf@,
                );
                r == out.0 && final(self).readable() == old(self).readable().skip(out.1)
                    && final(self).written() == old(self).written() + out.2
                    && final(self).seq_no() == out.3
                    && final(self).has_started() == out.4
            }),
    {
        let ghost r0 = self.readable();
        let ghost w0 = self.written();
        if buf.len() == 0 {
            if !self.started {
                match self.expect_byte(NAK) {
                    Ok(_) => {},
                    Err(e) => {
                        return Err(e);
                    },
                }
                self.started = true;
            }
            let ghost r1 = self.readable();
            let ghost w1 = self.written();
            self.write_byte(EOT);
            match self.expect_byte(NAK) {
                Ok(_) => {},
                Err(e) => {
                    proof {
                        let e1 = spec_expect(r1.skip(0), NAK, false);
                        assert(r1.skip(0) =~= r1);
                        assert(self.readable() =~= r1.skip(e1.1));
                        assert(self.written() =~= w1 + (seq![EOT] + e1.2));
                        if !old(self).has_started() {
                            let h = spec_expect(r0, NAK, false);
                            assert(r1 =~= r0.skip(h.1));
                            assert(r1.skip(e1.1) =~= r0.skip(h.1 + spec_eot(r1).1));
                            assert(self.written() =~= w0 + (h.2 + spec_eot(r1).2));
                        }
                    }
                    return Err(e);
                },
            }
            self.write_byte(EOT);
            match self.expect_byte(ACK) {
                Ok(_) => {},
                Err(e) => {
                    proof {
                        let e1 = spec_expect(r1, NAK, false);
                        let e2 = spec_expect(r1.skip(e1.1), ACK, false);
                        assert(r1.skip(0) =~= r1);
                        assert(r1.skip(e1.1).skip(e2.1) =~= r1.skip(e1.1 + e2.1));
                        assert(self.written() =~= w1 + (seq![EOT] + e1.2 + seq![EOT] + e2.2));
                        if !old(self).has_started() {
                            let h = spec_expect(r0, NAK, false);
                            assert(r1 =~= r0.skip(h.1));
                            assert(r1.skip(e1.1 + e2.1) =~= r0.skip(h.1 + spec_eot(r1).1));
                            assert(self.written() =~= w0 + (h.2 + spec_eot(r1).2));
                        }
                    }
                    return Err(e);
                },
            }
            proof {
                let e1 = spec_expect(r1, NAK, false);
                let e2 = spec_expect(r1.skip(e1.1), ACK, false);
                assert(r1.skip(0) =~= r1);
                assert(r1.skip(e1.1).skip(e2.1) =~= r1.skip(e1.1 + e2.1));
                assert(self.written() =~= w1 + (seq![EOT] + e1.2 + seq![EOT] + e2.2));
                if !old(self).has_started() {
                    let h = spec_expect(r0, NAK, false);
                    assert(r1 =~= r0.skip(h.1));
                    assert(r1.skip(e1.1 + e2.1) =~= r0.skip(h.1 + spec_eot(r1).1));
                    assert(self.written() =~= w0 + (h.2 + spec_eot(r1).2));
                }
            }
            Ok(0)
        } else {
            self.write_byte(SOH);
            let seq_byte = self.packet;
            self.write_byte(seq_byte);
            self.write_byte(255 - seq_byte);
            let mut i: usize = 0;
            while i < buf.len()
                invariant
                    buf@.len() == PAYLOAD_LEN,
                    i <= buf@.len(),
                    self.seq_no() == old(self).seq_no(),
                    self.has_started() == old(self).has_started(),
                    seq_byte == old(self).seq_no(),
                    self.readable() == r0,
                    self.written() == w0 + seq![SOH, seq_byte, complement_of(seq_byte)]
                        + buf@.take(i as int),
                decreases buf@.len() - i,
            {
                self.write_byte(buf[i]);
                proof {
                    assert(buf@.take(i as int + 1) =~= buf@.take(i as int).push(buf@[i as int]));
                    assert((w0 + seq![SOH, seq_byte, complement_of(seq_byte)] + buf@.take(
                        i as int,
                    )).push(buf@[i as int]) =~= w0 + seq![SOH, seq_byte, complement_of(seq_byte)]
                        + buf@.take(i as int + 1));
                }
                i = i + 1;
            }
            let sum = get_checksum(buf);
            self.write_byte(sum);
            proof {
                assert(buf@.take(buf@.len() as int) =~= buf@);
                assert(self.written() =~= w0 + frame_of(seq_byte, buf@));
            }
            let response = match self.read_byte(true) {
                Ok(b) => b,
                Err(e) => {
                    proof {
                        if r0.len() == 0 {
                            assert(self.readable() =~= r0.skip(0));
                        }
                    }
                    return Err(e);
                },
            };
            if response == NAK {
                return Err(TransferError::Interrupted);
            }
            if response != ACK {
                return Err(TransferError::InvalidData);
            }
            self.packet = next_seq(self.packet);
            let new_seq = self.packet;
            self.progress.on_packet(new_seq);
            Ok(buf.len())
        }
    }
}

impl<T: Channel, P: ProgressHook> Xmodem<T, P> {
    /// Reads (downloads) a single packet into the first 128 bytes of `buf`,
    /// which must hold at least 128 bytes (else `BufferTooSmall`, before any
    /// channel use). On EOT it performs the closing handshake and returns 0,
    /// the sole normal termination. Otherwise it requires SOH, the expected
    /// sequence number and its complement, reads the 128 payload bytes, and
    /// checks the checksum: a mismatch is answered with NAK (`Interrupted`,
    /// same slot retried); a match is acknowledged with ACK, advances the
    /// sequence number and reports progress.
    pub fn read_packet(&mut self, buf: &mut Vec<u8>) -> (r: Result<usize, TransferError>)
        ensures
            final(self).has_started() == old(self).has_started(),
            if old(buf)@.len() < PAYLOAD_LEN {
                r == Err::<usize, TransferError>(TransferError::BufferTooSmall)
                    && final(buf)@ == old(buf)@
                    && final(self).readable() == old(self).readable()
                    && final(self).written() == old(self).written()
                    && final(self).seq_no() == old(self).seq_no()
            } else {
                let out = spec_read_packet(old(self).readable(), old(self).seq_no());
                r == out.0 && final(self).readable() == old(self).readable().skip(out.1)
                    && final(self).written() == old(self).written() + out.2
                    && final(self).seq_no() == out.3
                    && (match out.4 {
                    Some(pl) => final(buf)@ == pl + old(buf)@.skip(PAYLOAD_LEN as int),
                    None => final(buf)@ == old(buf)@,
                })
            },
    {
        let ghost r0 = self.readable();
        let ghost w0 = self.written();
        if buf.len() < PAYLOAD_LEN {
            return Err(TransferError::BufferTooSmall);
        }
        let first = match self.read_byte(true) {
            Ok(b) => b,
            Err(e) => {
                proof {
                    if r0.len() == 0 {
                        assert(self.readable() =~= r0.skip(0));
                        assert(self.written() =~= w0 + Seq::<u8>::empty());
                    } else {
                        assert(self.written() =~= w0 + Seq::<u8>::empty());
                    }
                }
                return Err(e);
            },
        };
        if first == EOT {
            self.write_byte(NAK);
            match self.expect_byte(EOT) {
                Ok(_) => {},
                Err(e) => {
                    proof {
                        let ex = spec_expect(r0.skip(1), EOT, false);
                        assert(self.readable() =~= r0.skip(1 + ex.1));
                        assert(self.written() =~= w0 + (seq![NAK] + ex.2));
                    }
                    return Err(e);
                },
            }
            self.write_byte(ACK);
            proof {
                let ex = spec_expect(r0.skip(1), EOT, false);
                assert(self.readable() =~= r0.skip(1 + ex.1));
                assert(self.written() =~= w0 + (seq![NAK] + ex.2 + seq![ACK]));
            }
            return Ok(0);
        }
        if first != SOH {
            let second = match self.read_byte(false) {
                Ok(b) => b,
                Err(e) => {
                    proof {
                        assert(self.written() =~= w0 + Seq::<u8>::empty());
                    }
                    return Err(e);
                },
            };
            self.write_byte(CAN);
            proof {
                assert(r0.skip(1).skip(1) =~= r0.skip(2));
                assert(self.written() =~= w0 + seq![CAN]);
            }
            if second == CAN {
                return Err(TransferError::ConnectionAborted);
            }
            return Err(TransferError::InvalidData);
        }
        let pkt_num = match self.read_byte(true) {
            Ok(b) => b,
            Err(e) => {
                proof {
                    if r0.len() >= 2 {
                        assert(r0.skip(1).skip(1) =~= r0.skip(2));
                    }
                    assert(self.written() =~= w0 + Seq::<u8>::empty());
                }
                return Err(e);
            },
        };
        let pkt_comp = match self.read_byte(true) {
            Ok(b) => b,
            Err(e) => {
                proof {
                    assert(r0.skip(1).skip(1) =~= r0.skip(2));
                    if r0.len() >= 3 {
                        assert(r0.skip(2).skip(1) =~= r0.skip(3));
                    }
                    assert(self.written() =~= w0 + Seq::<u8>::empty());
                }
                return Err(e);
            },
        };
        proof {
            assert(r0.skip(1).skip(1) =~= r0.skip(2));
            assert(r0.skip(2).skip(1) =~= r0.skip(3));
        }
        if pkt_num != self.packet || pkt_comp != 255 - self.packet {
            self.write_byte(CAN);
            proof {
                assert(self.written() =~= w0 + seq![CAN]);
            }
            return Err(TransferError::InvalidData);
        }
        let mut payload: Vec<u8> = Vec::new();
        let mut i: usize = 0;
        while i < PAYLOAD_LEN
            invariant
                r0 == old(self).readable(),
                w0 == old(self).written(),
                i == payload@.len(),
                i <= PAYLOAD_LEN,
                r0.len() >= 3 + i,
                r0[0] == SOH,
                r0[1] == old(self).seq_no() && r0[1] != CAN,
                r0[2] == complement_of(old(self).seq_no()) && r0[2] != CAN,
                self.readable() == r0.skip(3 + i as int),
                self.written() == w0,
                self.seq_no() == old(self).seq_no(),
                self.has_started() == old(self).has_started(),
                payload@ == r0.subrange(3, 3 + i as int),
                buf@ == old(buf)@,
                old(buf)@.len() >= PAYLOAD_LEN,
            decreases PAYLOAD_LEN - i,
        {
            let b = match self.read_byte(false) {
                Ok(b) => b,
                Err(e) => {
                    proof {
                        assert(r0.len() == 3 + i);
                        assert(r0.skip(r0.len() as int) =~= self.readable());
                        assert(self.written() =~= w0 + Seq::<u8>::empty());
                    }
                    return Err(e);
                },
            };
            proof {
                assert(r0.skip(3 + i as int).skip(1) =~= r0.skip(3 + i as int + 1));
                assert(r0.subrange(3, 3 + i as int + 1) =~= r0.subrange(3, 3 + i as int).push(
                    r0[3 + i as int],
                ));
            }
            payload.push(b);
            i = i + 1;
        }
        let transmitted = match self.read_byte(false) {
            Ok(b) => b,
            Err(e) => {
                proof {
                    assert(r0.len() == 131);
                    assert(r0.skip(r0.len() as int) =~= self.readable());
                    assert(self.written() =~= w0 + Seq::<u8>::empty());
                }
                return Err(e);
            },
        };
        proof {
            assert(r0.skip(131).skip(1) =~= r0.skip(132));
            assert(payload@ =~= r0.subrange(3, 131));
        }
        let sum = get_checksum(payload.as_slice());
        let mut j: usize = 0;
        while j < PAYLOAD_LEN
            invariant
                r0 == old(self).readable(),
                w0 == old(self).written(),
                j <= PAYLOAD_LEN,
                payload@.len() == PAYLOAD_LEN,
                buf@.len() == old(buf)@.len() >= PAYLOAD_LEN,
                forall|m: int| 0 <= m < j ==> buf@[m] == payload@[m],
                forall|m: int| j <= m < buf@.len() ==> buf@[m] == old(buf)@[m],
                r0.len() >= 132,
                r0[0] == SOH,
                r0[1] == old(self).seq_no() && r0[1] != CAN,
                r0[2] == complement_of(old(self).seq_no()) && r0[2] != CAN,
                payload@ == r0.subrange(3, 131),
                transmitted == r0[131],
                sum == checksum_of(payload@),
                self.readable() == r0.skip(132),
                self.written() == w0,
                self.seq_no() == old(self).seq_no(),
                self.has_started() == old(self).has_started(),
            decreases PAYLOAD_LEN - j,
        {
            let b = payload[j];
            vec_set(buf, j, b);
            j = j + 1;
        }
        proof {
            assert(buf@ =~= r0.subrange(3, 131) + old(buf)@.skip(PAYLOAD_LEN as int));
        }
        if transmitted != sum {
            self.write_byte(NAK);
            proof {
                assert(self.written() =~= w0 + seq![NAK]);
            }
            return Err(TransferError::Interrupted);
        }
        self.write_byte(ACK);
        self.packet = next_seq(self.packet);
        let new_seq = self.packet;
        self.progress.on_packet(new_seq);
        proof {
            assert(self.written() =~= w0 + seq![ACK]);
        }
        Ok(PAYLOAD_LEN)
    }
}

/// The number of leading NAK bytes of the stream `r`.
pub open spec fn nak_run(r: Seq<u8>) -> int
    decreases r.len(),
{
    if r.len() == 0 || r[0] != NAK {
        0
    } else {
        1 + nak_run(r.skip(1))
    }
}

/// The frame `f` written out `n` times.
pub open spec fn repeat_frames(f: Seq<u8>, n: int) -> Seq<u8>
    decreases n,
{
    if n <= 0 {
        seq![]
    } else {
        repeat_frames(f, n - 1) + f
    }
}

/// The outcome of sending one data packet with a retry budget of 10:
/// result, response bytes consumed, bytes written, and the sequence number
/// afterwards. Each attempt writes the whole frame; each NAK reply asks for
/// the next attempt; the tenth consecutive NAK exhausts the budget
/// (`BrokenPipe`); the first non-NAK reply decides: ACK succeeds and
/// advances the sequence number, CAN aborts, anything else is invalid data.
pub open spec fn spec_send_attempts(r: Seq<u8>, seq_no: u8, payload: Seq<u8>) -> (Result<
    usize,
    TransferError,
>, int, Seq<u8>, u8) {
    let k = nak_run(r);
    let f = frame_of(seq_no, payload);
    if k >= 10 {
        (Err(TransferError::BrokenPipe), 10, repeat_frames(f, 10), seq_no)
    } else if r.len() == k {
        (Err(TransferError::ChannelFailure), k, repeat_frames(f, k + 1), seq_no)
    } else if r[k] == ACK {
        (Ok(128), k + 1, repeat_frames(f, k + 1), wrap_inc(seq_no))
    } else if r[k] == CAN {
        (Err(TransferError::ConnectionAborted), k + 1, repeat_frames(f, k + 1), seq_no)
    } else {
        (Err(TransferError::InvalidData), k + 1, repeat_frames(f, k + 1), seq_no)
    }
}

proof fn lemma_nak_run_bounds(r: Seq<u8>)
    ensures
        0 <= nak_run(r) <= r.len(),
        forall|j: int| 0 <= j < nak_run(r) ==> r[j] == NAK,
        nak_run(r) < r.len() ==> r[nak_run(r)] != NAK,
    decreases r.len(),
{
    if r.len() > 0 && r[0] == NAK {
        lemma_nak_run_bounds(r.skip(1));
        assert forall|j: int| 0 <= j < nak_run(r) implies r[j] == NAK by {
            if j > 0 {
                assert(r.skip(1)[j - 1] == NAK);
            }
        }
    }
}

impl<T: Channel, P: ProgressHook> Xmodem<T, P> {
    /// Sends one 128-byte payload with the bounded retry of up to 10
    /// attempts, retrying the same packet on each NAK and failing with
    /// `BrokenPipe` when the budget is exhausted. Any fatal failure of an
    /// attempt aborts immediately: a CAN reply ends the transfer on the
    /// very first offending byte.
    pub fn send_packet_attempts(&mut self, buf: &[u8]) -> (r: Result<usize, TransferError>)
        requires
            buf@.len() == PAYLOAD_LEN,
        ensures
            final(self).has_started() == old(self).has_started(),
            ({
                let out = spec_send_attempts(old(self).readable(), old(self).seq_no(), buf@);
                r == out.0 && final(self).readable() == old(self).readable().skip(out.1)
                    && final(self).written() == old(self).written() + out.2
                    && final(self).seq_no() == out.3
            }),
    {
        let ghost r0 = self.readable();
        let ghost w0 = self.written();
        let ghost f = frame_of(old(self).seq_no(), buf@);
        proof {
            lemma_nak_run_bounds(r0);
            assert(r0.skip(0) =~= r0);
        }
        let mut attempt: usize = 0;
        while attempt < 10
            invariant
                r0 == old(self).readable(),
                w0 == old(self).written(),
                buf@.len() == PAYLOAD_LEN,
                f == frame_of(old(self).seq_no(), buf@),
                0 <= attempt <= 10,
                attempt <= nak_run(r0),
                nak_run(r0) - attempt == nak_run(r0.skip(attempt as int)),
                self.readable() == r0.skip(attempt as int),
                self.written() == w0 + repeat_frames(f, attempt as int),
                self.seq_no() == old(self).seq_no(),
                self.has_started() == old(self).has_started(),
            decreases 10 - attempt,
        {
            proof {
                lemma_nak_run_bounds(r0);
                lemma_nak_run_bounds(r0.skip(attempt as int));
            }
            let ghost cur = self.readable();
            let res = self.write_packet(buf);
            proof {
                assert(repeat_frames(f, attempt as int) + f =~= repeat_frames(
                    f,
                    attempt as int + 1,
                ));
                assert(self.written() =~= w0 + repeat_frames(f, attempt as int + 1));
            }
            match res {
                Ok(n) => {
                    proof {
                        assert(cur[0] == ACK);
                        assert(nak_run(r0) == attempt);
                        assert(cur.skip(1) =~= r0.skip(attempt as int + 1));
                    }
                    return Ok(n);
                },
                Err(TransferError::Interrupted) => {
                    proof {
                        assert(cur[0] == NAK);
                        assert(nak_run(cur) == 1 + nak_run(cur.skip(1)));
                        assert(cur.skip(1) =~= r0.skip(attempt as int + 1));
                    }
                    attempt = attempt + 1;
                },
                Err(e) => {
                    proof {
                        if cur.len() == 0 {
                            assert(nak_run(r0) == attempt);
                            assert(r0.len() == attempt);
                            assert(self.readable() =~= r0.skip(nak_run(r0)));
                        } else {
                            assert(cur[0] != NAK && cur[0] != ACK);
                            assert(nak_run(r0) == attempt);
                            assert(cur.skip(1) =~= r0.skip(attempt as int + 1));
                        }
                    }
                    return Err(e);
                },
            }
        }
        proof {
            assert(nak_run(r0) >= 10);
        }
        Err(TransferError::BrokenPipe)
    }
}

/// The number of data packets that carry a source of length `l`:
/// one per 128 bytes, the last padded; zero for an empty source.
pub open spec fn num_packets(l: int) -> int {
    (l + 127) / 128
}

/// The payload of the `i`-th packet (0-based) of `data`: its bytes from
/// offset `128 * i`, zero-padded up to 128.
pub open spec fn chunk_of(data: Seq<u8>, i: int) -> Seq<u8> {
    Seq::new(128, |j: int| if 128 * i + j < data.len() { data[128 * i + j] } else { 0u8 })
}

/// The sequence number of the `i`-th packet (0-based): 1 for the first,
/// advancing by wrapping addition through 0.
pub open spec fn seq_no_at(i: int) -> u8 {
    ((1 + i) % 256) as u8
}

/// `data` zero-padded to a whole number of 128-byte packets.
pub open spec fn padded(data: Seq<u8>) -> Seq<u8> {
    Seq::new((128 * num_packets(data.len() as int)) as nat, |j: int| if j < data.len() { data[j] } else { 0u8 })
}

/// The wire bytes a sender emits for packets `i` onward of `data` when every
/// packet is acknowledged at once: one frame per chunk, then EOT twice.
pub open spec fn tx_wire_from(data: Seq<u8>, i: int) -> Seq<u8>
    decreases num_packets(data.len() as int) - i,
{
    if i < 0 || i >= num_packets(data.len() as int) {
        seq![EOT, EOT]
    } else {
        frame_of(seq_no_at(i), chunk_of(data, i)) + tx_wire_from(data, i + 1)
    }
}

/// Everything a sender writes for `data` on a fully acknowledged transfer.
pub open spec fn tx_wire(data: Seq<u8>) -> Seq<u8> {
    tx_wire_from(data, 0)
}

/// Everything a receiver writes while accepting an `n`-packet transfer: the
/// initial readiness NAK, one ACK per packet, and the closing NAK and ACK of
/// the end-of-transmission handshake.
pub open spec fn rx_replies(n: int) -> Seq<u8> {
    seq![NAK] + Seq::new(n as nat, |i: int| ACK) + seq![NAK, ACK]
}

proof fn lemma_num_packets_exact(l: int, k: int)
    requires
        0 <= k,
        128 * k < l <= 128 * (k + 1),
    ensures
        num_packets(l) == k + 1,
{
    vstd::arithmetic::div_mod::lemma_fundamental_div_mod_converse(
        l + 127,
        128,
        k + 1,
        l + 127 - 128 * (k + 1),
    );
}

proof fn lemma_num_packets_more(l: int, k: int)
    requires
        0 <= k,
        128 * (k + 1) < l,
    ensures
        k + 1 < num_packets(l),
{
    vstd::arithmetic::div_mod::lemma_fundamental_div_mod(l + 127, 128);
    vstd::arithmetic::div_mod::lemma_mod_division_less_than_divisor(l + 127, 128);
}

proof fn lemma_seq_no_at_step(i: int)
    ensures
        wrap_inc(seq_no_at(i)) == seq_no_at(i + 1),
{
    lemma_add_mod_noop(1 + i, 1, 256);
    vstd::arithmetic::div_mod::lemma_mod_division_less_than_divisor(1 + i, 256);
    vstd::arithmetic::div_mod::lemma_mod_twice(1, 256);
}

/// Law: a source of length `l` is carried by exactly `ceil(l / 128)` data
/// packets — none when it is empty — and the happy-path wire stream holds
/// one 132-byte frame per packet followed by the two EOT bytes.
pub proof fn lemma_packet_count(data: Seq<u8>)
    ensures
        num_packets(data.len() as int) == (data.len() + 127) / 128,
        data.len() == 0 ==> num_packets(data.len() as int) == 0 && tx_wire(data) =~= seq![EOT, EOT],
        tx_wire(data).len() == 132 * num_packets(data.len() as int) + 2,
{
    lemma_tx_wire_from_len(data, 0);
    if data.len() == 0 {
        vstd::arithmetic::div_mod::lemma_basic_div(127, 128);
    }
}

proof fn lemma_tx_wire_from_len(data: Seq<u8>, i: int)
    requires
        0 <= i,
    ensures
        tx_wire_from(data, i).len() == if i < num_packets(data.len() as int) {
            132 * (num_packets(data.len() as int) - i) + 2
        } else {
            2
        },
    decreases num_packets(data.len() as int) - i,
{
    if i < num_packets(data.len() as int) {
        lemma_tx_wire_from_len(data, i + 1);
    }
}

/// Builds the `i`-th 128-byte chunk of `data` starting at `off`, zero-padded.
fn make_chunk(data: &[u8], off: usize, Ghost(i): Ghost<int>) -> (chunk: Vec<u8>)
    requires
        0 <= i,
        off == 128 * i,
        off < data@.len(),
    ensures
        chunk@ == chunk_of(data@, i),
        chunk@.len() == PAYLOAD_LEN,
{
    let mut chunk: Vec<u8> = Vec::new();
    let mut j: usize = 0;
    while j < PAYLOAD_LEN
        invariant
            j <= PAYLOAD_LEN,
            0 <= i,
            off == 128 * i,
            off < data@.len(),
            chunk@.len() == j,
            forall|m: int| 0 <= m < j ==> chunk@[m] == chunk_of(data@, i)[m],
        decreases PAYLOAD_LEN - j,
    {
        let b = if j < data.len() - off {
            data[off + j]
        } else {
            0u8
        };
        chunk.push(b);
        j = j + 1;
    }
    proof {
        assert(chunk@ =~= chunk_of(data@, i));
    }
    chunk
}

impl<T: Channel, P: ProgressHook> Xmodem<T, P> {
    /// Drives the whole transmit side: waits for the peer's initial NAK,
    /// sends `data` in 128-byte zero-padded packets with bounded retry, then
    /// performs the end-of-transmission handshake. Returns the number of
    /// real (non-padding) bytes sent. Against a peer that acknowledges every
    /// packet at once — the stream `rx_replies` — it succeeds and writes
    /// exactly the `tx_wire` stream.
    fn transmit_session(&mut self, data: &[u8]) -> (r: Result<usize, TransferError>)
        requires
            old(self).seq_no() == 1,
            !old(self).has_started(),
        ensures
            match r {
                Ok(n) => n == data@.len(),
                Err(_) => true,
            },
            old(self).readable() == rx_replies(num_packets(data@.len() as int)) ==> ({
                &&& r == Ok::<usize, TransferError>(data.len())
                &&& final(self).written() == old(self).written() + tx_wire(data@)
                &&& final(self).readable().len() == 0
            }),
    {
        let ghost r0 = self.readable();
        let ghost w0 = self.written();
        let ghost npk = num_packets(data@.len() as int);
        let ghost cond = r0 == rx_replies(npk);
        proof {
            vstd::arithmetic::div_mod::lemma_fundamental_div_mod(data@.len() as int + 127, 128);
            vstd::arithmetic::div_mod::lemma_mod_division_less_than_divisor(
                data@.len() as int + 127,
                128,
            );
            assert(rx_replies(npk).len() == npk + 3);
        }
        let initial = match self.read_byte(true) {
            Ok(b) => b,
            Err(e) => {
                proof {
                    if cond {
                        assert(r0[0] == NAK);
                    }
                }
                return Err(e);
            },
        };
        if initial != NAK {
            return Err(TransferError::InvalidData);
        }
        self.started = true;
        let mut off: usize = 0;
        let mut k: usize = 0;
        while off < data.len()
            invariant
                r0 == old(self).readable(),
                w0 == old(self).written(),
                npk == num_packets(data@.len() as int),
                cond == (r0 == rx_replies(npk)),
                128 * npk <= data@.len() + 127,
                self.has_started(),
                off <= data@.len(),
                if (k as int) < npk {
                    off == 128 * k
                } else {
                    k as int == npk && off == data@.len()
                },
                cond ==> self.readable() == r0.skip(1 + k as int),
                cond ==> self.written() + tx_wire_from(data@, k as int) == w0 + tx_wire(data@),
                cond ==> self.seq_no() == seq_no_at(k as int),
            decreases data@.len() - off,
        {
            proof {
                if (k as int) >= npk {
                    assert(off == data@.len());
                    assert(false);
                }
                if data@.len() - off <= 128 {
                    lemma_num_packets_exact(data@.len() as int, k as int);
                } else {
                    lemma_num_packets_more(data@.len() as int, k as int);
                }
            }
            let n = if data.len() - off < PAYLOAD_LEN {
                data.len() - off
            } else {
                PAYLOAD_LEN
            };
            let chunk = make_chunk(data, off, Ghost(k as int));
            let ghost cur = self.readable();
            let ghost wp = self.written();
            proof {
                if cond {
                    assert(cur == rx_replies(npk).skip(1 + k as int));
                    assert(rx_replies(npk)[1 + k as int] == ACK);
                    assert(cur[0] == ACK);
                    assert(cur.len() == npk + 3 - 1 - k);
                    assert(nak_run(cur) == 0);
                }
            }
            match self.send_packet_attempts(chunk.as_slice()) {
                Ok(_) => {},
                Err(e) => {
                    proof {
                        if cond {
                            assert(spec_send_attempts(cur, seq_no_at(k as int), chunk@).0
                                == Ok::<usize, TransferError>(128));
                            assert(false);
                        }
                    }
                    return Err(e);
                },
            }
            proof {
                if cond {
                    let f = frame_of(seq_no_at(k as int), chunk_of(data@, k as int));
                    assert(repeat_frames(f, 0) =~= Seq::<u8>::empty());
                    assert(repeat_frames(f, 1) =~= f);
                    assert(cur.skip(1) =~= r0.skip(1 + (k as int + 1)));
                    assert(self.written() =~= wp + f);
                    assert(tx_wire_from(data@, k as int) == f + tx_wire_from(
                        data@,
                        k as int + 1,
                    ));
                    assert(self.written() + tx_wire_from(data@, k as int + 1) =~= wp + (f
                        + tx_wire_from(data@, k as int + 1)));
                    assert(wp + tx_wire_from(data@, k as int) =~= wp + (f + tx_wire_from(
                        data@,
                        k as int + 1,
                    )));
                    lemma_seq_no_at_step(k as int);
                }
            }
            off = off + n;
            k = k + 1;
        }
        let ghost re = self.readable();
        let ghost we = self.written();
        proof {
            if cond {
                assert(k as int == npk);
                assert(re == r0.skip(1 + npk));
                assert(re =~= seq![NAK, ACK]);
                assert(tx_wire_from(data@, npk) == seq![EOT, EOT]);
            }
        }
        let eot_buf: Vec<u8> = Vec::new();
        match self.write_packet(eot_buf.as_slice()) {
            Ok(_) => {},
            Err(e) => {
                proof {
                    if cond {
                        assert(spec_write_packet(re, seq_no_at(npk), true, eot_buf@).0
                            == Ok::<usize, TransferError>(0));
                        assert(false);
                    }
                }
                return Err(e);
            },
        }
        proof {
            if cond {
                assert(spec_write_packet(re, seq_no_at(npk), true, eot_buf@).1 == 2);
                assert(self.readable() =~= Seq::<u8>::empty());
                assert(spec_write_packet(re, seq_no_at(npk), true, eot_buf@).2 =~= seq![EOT, EOT]);
                assert(self.written() =~= we + tx_wire_from(data@, npk));
                assert(self.written() =~= w0 + tx_wire(data@));
            }
        }
        Ok(off)
    }
}

/// No packet among the first `n` carries CAN as its sequence or complement
/// byte on the wire. A receiver aborts the transfer when it reads CAN where
/// a sequence or complement byte is due, so only transfers with this
/// property can complete; the first collision is the packet whose sequence
/// number is 0x18.
pub open spec fn can_safe(n: int) -> bool {
    forall|i: int|
        0 <= i < n ==> #[trigger] seq_no_at(i) != CAN && complement_of(seq_no_at(i)) != CAN
}

impl<T: Channel, P: ProgressHook> Xmodem<T, P> {
    /// Drives the whole receive side: writes the readiness NAK, then accepts
    /// packets — with up to 10 attempts per slot, retrying on checksum
    /// mismatch — appending each verified 128-byte payload to `into`, until
    /// the end-of-transmission handshake. Returns the number of bytes
    /// received. Fed exactly the sender's happy-path `tx_wire` stream of
    /// some source, it accepts every packet, writes the `rx_replies` stream,
    /// and delivers the zero-padded source.
    fn receive_session(&mut self, into: &mut Vec<u8>) -> (r: Result<usize, TransferError>)
        requires
            old(self).seq_no() == 1,
        ensures
            final(into)@.len() >= old(into)@.len(),
            final(into)@.take(old(into)@.len() as int) == old(into)@,
            match r {
                Ok(n) => old(into)@.len() + n == final(into)@.len() && n % 128 == 0,
                Err(_) => true,
            },
            forall|data: Seq<u8>|
                (old(self).readable() == #[trigger] tx_wire(data) && data.len() + 127
                    <= usize::MAX && can_safe(num_packets(data.len() as int))) ==> ({
                    let n = num_packets(data.len() as int);
                    &&& r == Ok::<usize, TransferError>((128 * n) as usize)
                    &&& final(into)@ == old(into)@ + padded(data)
                    &&& final(self).written() == old(self).written() + rx_replies(n)
                    &&& final(self).readable().len() == 0
                }),
    {
        let ghost r0 = self.readable();
        let ghost w0 = self.written();
        self.write_byte(NAK);
        let before: usize = into.len();
        let mut buf: Vec<u8> = vec![0u8; PAYLOAD_LEN];
        let ghost mut pk: int = 0;
        proof {
            assert(into@.take(before as int) =~= into@);
            assert(padded(Seq::<u8>::empty()).take(0) =~= Seq::<u8>::empty());
            assert forall|data: Seq<u8>| r0 == #[trigger] tx_wire(data) implies self.written() == w0
                + seq![NAK] + Seq::new(0, |q: int| ACK) && into@ == old(into)@ + padded(
                data,
            ).take((128 * 0) as int) by {
                assert(w0 + seq![NAK] + Seq::new(0, |q: int| ACK) =~= w0.push(NAK));
                assert(padded(data).take(0) =~= Seq::<u8>::empty());
                assert(old(into)@ + padded(data).take(0) =~= old(into)@);
            }
        }
        #[allow(while_true)]
        while true
            invariant
                r0 == old(self).readable(),
                w0 == old(self).written(),
                before == old(into)@.len(),
                buf@.len() == PAYLOAD_LEN,
                0 <= pk,
                into@.len() == before + 128 * pk,
                into@.take(before as int) == old(into)@,
                forall|data: Seq<u8>|
                    (r0 == #[trigger] tx_wire(data) && data.len() + 127 <= usize::MAX
                        && can_safe(num_packets(data.len() as int))) ==> ({
                        let n = num_packets(data.len() as int);
                        &&& pk <= n
                        &&& self.readable() == tx_wire_from(data, pk)
                        &&& into@ == old(into)@ + padded(data).take(128 * pk)
                        &&& self.written() == w0 + seq![NAK] + Seq::new(pk as nat, |q: int| ACK)
                        &&& self.seq_no() == seq_no_at(pk)
                    }),
            decreases self.readable().len(),
        {
            let ghost r_slot = self.readable();
            let mut attempt: usize = 0;
            let mut outcome: Option<Result<usize, TransferError>> = None;
            while attempt < 10 && outcome.is_none()
                invariant
                    r0 == old(self).readable(),
                    w0 == old(self).written(),
                    before == old(into)@.len(),
                    buf@.len() == PAYLOAD_LEN,
                    0 <= pk,
                    into@.len() == before + 128 * pk,
                    into@.take(before as int) == old(into)@,
                    attempt <= 10,
                    self.readable().len() <= r_slot.len(),
                    match outcome {
                        Some(res) => match res {
                            Ok(n) => (n == 0 || n == PAYLOAD_LEN) && (n == PAYLOAD_LEN
                                ==> self.readable().len() < r_slot.len()),
                            Err(e) => !(e matches TransferError::Interrupted) && !(
                            e matches TransferError::BufferTooSmall),
                        },
                        None => true,
                    },
                    forall|data: Seq<u8>|
                        (r0 == #[trigger] tx_wire(data) && data.len() + 127 <= usize::MAX
                            && can_safe(num_packets(data.len() as int))) ==> ({
                            let n = num_packets(data.len() as int);
                            &&& pk <= n
                            &&& (outcome is None ==> attempt == 0)
                            &&& (outcome is None ==> self.readable() == tx_wire_from(data, pk)
                                && self.written() == w0 + seq![NAK] + Seq::new(
                                pk as nat,
                                |q: int| ACK,
                            ) && self.seq_no() == seq_no_at(pk))
                            &&& (outcome is Some && pk < n ==> outcome == Some(
                                Ok::<usize, TransferError>(PAYLOAD_LEN),
                            ) && self.readable() == tx_wire_from(data, pk + 1) && self.written()
                                == w0 + seq![NAK] + Seq::new(pk as nat + 1, |q: int| ACK)
                                && self.seq_no() == seq_no_at(pk + 1) && buf@ == chunk_of(
                                data,
                                pk,
                            ))
                            &&& (outcome is Some && pk == n ==> outcome == Some(
                                Ok::<usize, TransferError>(0),
                            ) && self.readable().len() == 0 && self.written() == w0 + rx_replies(n)
                                && buf@.len() == PAYLOAD_LEN)
                            &&& into@ == old(into)@ + padded(data).take(128 * pk)
                        }),
                decreases 10 - attempt, (if outcome is None { 1int } else { 0int }),
            {
                let ghost r_att = self.readable();
                let ghost w_att = self.written();
                let res = self.read_packet(&mut buf);
                proof {
                    let out = spec_read_packet(r_att, old(self).seq_no());
                    assert forall|data: Seq<u8>|
                        (r0 == #[trigger] tx_wire(data) && data.len() + 127 <= usize::MAX
                            && can_safe(num_packets(data.len() as int))) implies ({
                            let n = num_packets(data.len() as int);
                            &&& pk <= n
                            &&& (pk < n ==> res == Ok::<usize, TransferError>(PAYLOAD_LEN)
                                && self.readable() == tx_wire_from(data, pk + 1) && self.written()
                                == w0 + seq![NAK] + Seq::new(pk as nat + 1, |q: int| ACK)
                                && self.seq_no() == seq_no_at(pk + 1) && buf@ == chunk_of(
                                data,
                                pk,
                            ))
                            &&& (pk == n ==> res == Ok::<usize, TransferError>(0)
                                && self.readable().len() == 0 && self.written() == w0 + rx_replies(
                                n,
                            ))
                        }) by {
                        let n = num_packets(data.len() as int);
                        assert(r_att == tx_wire_from(data, pk));
                        if pk < n {
                            let f = frame_of(seq_no_at(pk), chunk_of(data, pk));
                            let rest = tx_wire_from(data, pk + 1);
                            assert(tx_wire_from(data, pk) == f + rest);
                            lemma_tx_wire_from_len(data, pk + 1);
                            assert(f.len() == 132);
                            assert(r_att.len() >= 134);
                            assert(seq_no_at(pk) != CAN && complement_of(seq_no_at(pk)) != CAN);
                            assert(r_att[0] == SOH);
                            assert(r_att[1] == seq_no_at(pk));
                            assert(r_att[2] == complement_of(seq_no_at(pk)));
                            assert(r_att.subrange(3, 131) =~= chunk_of(data, pk));
                            assert(r_att[131] == checksum_of(chunk_of(data, pk)));
                            lemma_seq_no_at_step(pk);
                            assert(r_att.skip(132) =~= rest);
                            assert(buf@ =~= chunk_of(data, pk));
                            assert(self.written() =~= w_att + seq![ACK]);
                            assert(w0 + seq![NAK] + Seq::new(pk as nat, |q: int| ACK) + seq![ACK]
                                =~= w0 + seq![NAK] + Seq::new(pk as nat + 1, |q: int| ACK));
                        } else {
                            assert(pk == n);
                            assert(tx_wire_from(data, pk) == seq![EOT, EOT]);
                            assert(r_att.skip(1) =~= seq![EOT]);
                            assert(r_att.skip(2int) =~= Seq::<u8>::empty());
                            assert(self.written() =~= w_att + (seq![NAK] + Seq::<u8>::empty()
                                + seq![ACK]));
                            assert(w0 + seq![NAK] + Seq::new(pk as nat, |q: int| ACK) + (seq![NAK]
                                + Seq::<u8>::empty() + seq![ACK]) =~= w0 + rx_replies(n));
                        }
                    }
                }
                match res {
                    Ok(n) => {
                        outcome = Some(Ok(n));
                    },
                    Err(e) => {
                        match e {
                            TransferError::Interrupted => {
                                attempt = attempt + 1;
                            },
                            _ => {
                                outcome = Some(Err(e));
                            },
                        }
                    },
                }
            }
            match outcome {
                None => {
                    return Err(TransferError::BrokenPipe);
                },
                Some(res) => match res {
                    Ok(n) => {
                        if n == 0 {
                            proof {
                                assert forall|data: Seq<u8>|
                                    (r0 == #[trigger] tx_wire(data) && data.len() + 127
                                        <= usize::MAX && can_safe(
                                        num_packets(data.len() as int),
                                    )) implies pk == num_packets(data.len() as int) && into@
                                    == old(into)@ + padded(data) by {
                                    let n2 = num_packets(data.len() as int);
                                    if pk < n2 {
                                        assert(false);
                                    }
                                    assert(padded(data).len() == 128 * n2);
                                    assert(padded(data).take(128 * pk) =~= padded(data));
                                }
                            }
                            let total = into.len() - before;
                            proof {
                                vstd::arithmetic::div_mod::lemma_mod_multiples_basic(pk, 128);
                            }
                            return Ok(total);
                        }
                        into.extend_from_slice(buf.as_slice());
                        proof {
                            assert(into@.take(before as int) =~= old(into)@);
                            assert forall|data: Seq<u8>|
                                (r0 == #[trigger] tx_wire(data) && data.len() + 127 <= usize::MAX
                                    && can_safe(num_packets(data.len() as int))) implies into@
                                == old(into)@ + padded(data).take(128 * (pk + 1)) && pk + 1
                                <= num_packets(data.len() as int) by {
                                let n2 = num_packets(data.len() as int);
                                assert(pk < n2);
                                assert(padded(data).len() == 128 * n2);
                                assert(old(into)@ + padded(data).take(128 * pk) + chunk_of(
                                    data,
                                    pk,
                                ) =~= old(into)@ + padded(data).take(128 * (pk + 1)));
                            }
                            pk = pk + 1;
                        }
                    },
                    Err(e) => {
                        return Err(e);
                    },
                },
            }
        }
        Err(TransferError::BrokenPipe)
    }
}

impl Xmodem<(), NoProgress> {
    /// Transmits `data` to the receiver over `to` using the XMODEM protocol.
    /// If the length of the data is not a multiple of 128 bytes, the last
    /// packet is padded with zeroes. Returns the number of bytes written,
    /// excluding the padding, together with the channel. Against a peer that
    /// acknowledges every packet — the `rx_replies` stream — it succeeds and
    /// writes exactly the `tx_wire` stream: one frame per 128-byte chunk,
    /// then the double EOT.
    pub fn transmit<T: Channel>(data: &[u8], to: T) -> (r: (Result<usize, TransferError>, T))
        ensures
            match r.0 {
                Ok(n) => n == data@.len(),
                Err(_) => true,
            },
            to.readable() == rx_replies(num_packets(data@.len() as int)) ==> ({
                &&& r.0 == Ok::<usize, TransferError>(data.len())
                &&& r.1.written() == to.written() + tx_wire(data@)
                &&& r.1.readable().len() == 0
            }),
    {
        Xmodem::transmit_with_progress(data, to, NoProgress)
    }

    /// Transmits `data` as `transmit` does, reporting each acknowledged
    /// packet to `f`.
    pub fn transmit_with_progress<T: Channel, P: ProgressHook>(data: &[u8], to: T, f: P) -> (r: (
        Result<usize, TransferError>,
        T,
    ))
        ensures
            match r.0 {
                Ok(n) => n == data@.len(),
                Err(_) => true,
            },
            to.readable() == rx_replies(num_packets(data@.len() as int)) ==> ({
                &&& r.0 == Ok::<usize, TransferError>(data.len())
                &&& r.1.written() == to.written() + tx_wire(data@)
                &&& r.1.readable().len() == 0
            }),
    {
        let mut session = Xmodem::new_with_progress(to, f);
        let res = session.transmit_session(data);
        (res, session.into_inner())
    }

    /// Receives data over `from` using the XMODEM protocol, appending each
    /// verified 128-byte payload to `into`. Returns the number of bytes
    /// received — always a whole number of packets — together with the
    /// channel. Fed exactly the `tx_wire` stream of some source whose
    /// sequence and complement bytes never collide with CAN, it accepts
    /// every packet, writes the `rx_replies` stream, and appends the source
    /// zero-padded to whole packets.
    pub fn receive<T: Channel>(from: T, into: &mut Vec<u8>) -> (r: (
        Result<usize, TransferError>,
        T,
    ))
        ensures
            final(into)@.len() >= old(into)@.len(),
            final(into)@.take(old(into)@.len() as int) == old(into)@,
            match r.0 {
                Ok(n) => old(into)@.len() + n == final(into)@.len() && n % 128 == 0,
                Err(_) => true,
            },
            forall|data: Seq<u8>|
                (from.readable() == #[trigger] tx_wire(data) && data.len() + 127 <= usize::MAX
                    && can_safe(num_packets(data.len() as int))) ==> ({
                    let n = num_packets(data.len() as int);
                    &&& r.0 == Ok::<usize, TransferError>((128 * n) as usize)
                    &&& final(into)@ == old(into)@ + padded(data)
                    &&& r.1.written() == from.written() + rx_replies(n)
                    &&& r.1.readable().len() == 0
                }),
    {
        Xmodem::receive_with_progress(from, into, NoProgress)
    }

    /// Receives data as `receive` does, reporting each accepted packet to
    /// `f`.
    pub fn receive_with_progress<T: Channel, P: ProgressHook>(
        from: T,
        into: &mut Vec<u8>,
        f: P,
    ) -> (r: (Result<usize, TransferError>, T))
        ensures
            final(into)@.len() >= old(into)@.len(),
            final(into)@.take(old(into)@.len() as int) == old(into)@,
            match r.0 {
                Ok(n) => old(into)@.len() + n == final(into)@.len() && n % 128 == 0,
                Err(_) => true,
            },
            forall|data: Seq<u8>|
                (from.readable() == #[trigger] tx_wire(data) && data.len() + 127 <= usize::MAX
                    && can_safe(num_packets(data.len() as int))) ==> ({
                    let n = num_packets(data.len() as int);
                    &&& r.0 == Ok::<usize, TransferError>((128 * n) as usize)
                    &&& final(into)@ == old(into)@ + padded(data)
                    &&& r.1.written() == from.written() + rx_replies(n)
                    &&& r.1.readable().len() == 0
                }),
    {
        let mut session = Xmodem::new_with_progress(from, f);
        let res = session.receive_session(into);
        (res, session.into_inner())
    }
}

/// Law: round trip. The zero-padded image that a receiver fed the sender's
/// happy-path wire stream delivers (see `receive`) carries the source
/// exactly: it is one 128-byte chunk per packet, its prefix is the source,
/// and only zero padding follows; and the replies the receiver writes,
/// `rx_replies`, are exactly the stream under which `transmit` promises to
/// emit that wire stream — so a sender and receiver piped back to back
/// reproduce the source.
pub proof fn lemma_round_trip(data: Seq<u8>)
    ensures
        padded(data).len() == 128 * num_packets(data.len() as int),
        padded(data).take(data.len() as int) == data,
        forall|j: int|
            data.len() <= j < padded(data).len() ==> #[trigger] padded(data)[j] == 0u8,
        tx_wire(data).len() == 132 * num_packets(data.len() as int) + 2,
        rx_replies(num_packets(data.len() as int)).len() == num_packets(data.len() as int) + 3,
{
    let l = data.len() as int;
    let n = num_packets(l);
    vstd::arithmetic::div_mod::lemma_fundamental_div_mod(l + 127, 128);
    vstd::arithmetic::div_mod::lemma_mod_division_less_than_divisor(l + 127, 128);
    assert(128 * n >= l);
    assert(padded(data).take(l) =~= data);
    lemma_tx_wire_from_len(data, 0);
    assert(rx_replies(n).len() == n + 3);
}

/// Law: sequence numbers wrap by modular addition: after 255 the next
/// sequence number is 0, and the sequence number expected for each packet
/// slot follows the same wrapping rule.
pub proof fn lemma_sequence_wrap()
    ensures
        wrap_inc(255) == 0,
        seq_no_at(0) == 1,
        forall|i: int| 0 <= i ==> #[trigger] seq_no_at(i + 1) == wrap_inc(seq_no_at(i)),
{
    assert(wrap_inc(255) == 0) by {
        vstd::arithmetic::div_mod::lemma_mod_self_0(256);
    }
    assert(seq_no_at(0) == 1) by {
        vstd::arithmetic::div_mod::lemma_small_mod(1, 256);
    }
    assert forall|i: int| 0 <= i implies #[trigger] seq_no_at(i + 1) == wrap_inc(seq_no_at(i)) by {
        lemma_seq_no_at_step(i);
    }
}

} // verus!
