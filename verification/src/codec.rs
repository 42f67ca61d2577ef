//! The packet codec: protocol byte constants, the additive checksum, and the
//! pure framing and parsing of 132-byte data packets.

use vstd::prelude::*;
use vstd::arithmetic::div_mod::{lemma_add_mod_noop, lemma_fundamental_div_mod};

verus! {

/// Start-of-header byte that opens every data frame.
pub const SOH: u8 = 0x01;
/// End-of-transmission byte.
pub const EOT: u8 = 0x04;
/// Acknowledge byte.
pub const ACK: u8 = 0x06;
/// Negative-acknowledge byte.
pub const NAK: u8 = 0x15;
/// Cancel byte.
pub const CAN: u8 = 0x18;

/// Number of payload bytes carried by every data frame.
pub const PAYLOAD_LEN: usize = 128;
/// Number of bytes of a whole data frame on the wire.
pub const FRAME_LEN: usize = 132;

/// How a transfer, or the parse of a single frame, can fail.
#[derive(Clone, Copy, Debug, PartialEq, Eq, Structural)]
pub enum TransferError {
    /// A byte violated the protocol where a specific byte was required; fatal.
    InvalidData,
    /// The peer cancelled the transfer with a CAN byte; fatal.
    ConnectionAborted,
    /// A checksum rejection (NAK); retried by the enclosing attempt loop.
    Interrupted,
    /// The retry budget of one packet or slot was exhausted; fatal.
    BrokenPipe,
    /// The destination buffer of a packet read holds fewer than 128 bytes.
    BufferTooSmall,
    /// The channel ran dry or reported a hard error.
    ChannelFailure,
}

/// Sum of the bytes of `s` as an unbounded integer.
pub open spec fn byte_sum(s: Seq<u8>) -> int
    decreases s.len(),
{
    if s.len() == 0 {
        0
    } else {
        byte_sum(s.drop_last()) + s.last()
    }
}

/// The additive checksum: the sum of the bytes modulo 256.
pub open spec fn checksum_of(s: Seq<u8>) -> u8 {
    (byte_sum(s) % 256) as u8
}

/// The complement byte that accompanies a sequence number on the wire.
pub open spec fn complement_of(seq_no: u8) -> u8 {
    (255 - seq_no) as u8
}

/// The 132-byte wire frame of one packet: header, sequence number, its
/// complement, the 128 payload bytes, and the payload checksum.
pub open spec fn frame_of(seq_no: u8, payload: Seq<u8>) -> Seq<u8> {
    seq![SOH, seq_no, complement_of(seq_no)] + payload + seq![checksum_of(payload)]
}

/// What parsing a received frame yields: the carried sequence number and
/// payload, or the reason the frame is rejected.
pub open spec fn spec_decode(f: Seq<u8>) -> Result<(u8, Seq<u8>), TransferError> {
    if f.len() != FRAME_LEN {
        Err(TransferError::InvalidData)
    } else if f[0] != SOH {
        Err(TransferError::InvalidData)
    } else if f[2] != complement_of(f[1]) {
        Err(TransferError::InvalidData)
    } else if f[131] != checksum_of(f.subrange(3, 131)) {
        Err(TransferError::Interrupted)
    } else {
        Ok((f[1], f.subrange(3, 131)))
    }
}

proof fn lemma_byte_sum_nonneg(s: Seq<u8>)
    ensures
        byte_sum(s) >= 0,
    decreases s.len(),
{
    if s.len() > 0 {
        lemma_byte_sum_nonneg(s.drop_last());
    }
}

/// Computes the additive checksum of `buf`: the byte sum modulo 256.
pub fn get_checksum(buf: &[u8]) -> (sum: u8)
    ensures
        sum == checksum_of(buf@),
{
    let mut acc: u8 = 0;
    let mut i: usize = 0;
    while i < buf.len()
        invariant
            i <= buf@.len(),
            acc == checksum_of(buf@.take(i as int)),
        decreases buf@.len() - i,
    {
        let b = buf[i];
        proof {
            let pre = buf@.take(i as int);
            let post = buf@.take(i as int + 1);
            assert(post.drop_last() =~= pre);
            assert(post.last() == b);
            lemma_byte_sum_nonneg(pre);
            lemma_add_mod_noop(byte_sum(pre), b as int, 256);
            assert((byte_sum(pre) % 256 + b as int % 256) % 256 == byte_sum(post) % 256);
            assert(b as int % 256 == b as int);
        }
        acc = (((acc as u16) + (b as u16)) % 256) as u8;
        i = i + 1;
    }
    proof {
        assert(buf@.take(buf@.len() as int) =~= buf@);
    }
    acc
}

/// Frames a 128-byte payload under the given sequence number, emitting
/// `[SOH, seq_no, 255 - seq_no, payload..., checksum(payload)]`.
pub fn encode(seq_no: u8, payload: &[u8]) -> (frame: Vec<u8>)
    requires
        payload@.len() == PAYLOAD_LEN,
    ensures
        frame@ == frame_of(seq_no, payload@),
        frame@.len() == FRAME_LEN,
{
    let mut frame: Vec<u8> = Vec::new();
    frame.push(SOH);
    frame.push(seq_no);
    frame.push(255 - seq_no);
    frame.extend_from_slice(payload);
    let sum = get_checksum(payload);
    frame.push(sum);
    proof {
        assert(frame@ =~= frame_of(seq_no, payload@));
    }
    frame
}

/// Parses and validates a received frame: the header must be SOH, the
/// complement must match the sequence number, and the checksum must match
/// the payload. Returns the carried sequence number and payload.
pub fn decode(frame: &[u8]) -> (r: Result<(u8, Vec<u8>), TransferError>)
    ensures
        match r {
            Ok(p) => spec_decode(frame@) == Ok::<(u8, Seq<u8>), TransferError>((p.0, p.1@)),
            Err(e) => spec_decode(frame@) == Err::<(u8, Seq<u8>), TransferError>(e),
        },
{
    if frame.len() != FRAME_LEN {
        return Err(TransferError::InvalidData);
    }
    if frame[0] != SOH {
        return Err(TransferError::InvalidData);
    }
    let seq_no = frame[1];
    if frame[2] != 255 - seq_no {
        return Err(TransferError::InvalidData);
    }
    let mut payload: Vec<u8> = Vec::new();
    let mut i: usize = 3;
    while i < FRAME_LEN - 1
        invariant
            3 <= i <= 131,
            frame@.len() == FRAME_LEN,
            payload@ == frame@.subrange(3, i as int),
        decreases 131 - i,
    {
        payload.push(frame[i]);
        proof {
            assert(frame@.subrange(3, i as int + 1) =~= frame@.subrange(3, i as int).push(
                frame@[i as int],
            ));
        }
        i = i + 1;
    }
    let sum = get_checksum(payload.as_slice());
    if frame[131] != sum {
        return Err(TransferError::Interrupted);
    }
    Ok((seq_no, payload))
}

/// Law: decoding an encoded frame yields back the sequence number and the
/// payload, for every sequence number and every 128-byte payload.
pub proof fn lemma_decode_encode(seq_no: u8, payload: Seq<u8>)
    requires
        payload.len() == PAYLOAD_LEN,
    ensures
        spec_decode(frame_of(seq_no, payload)) == Ok::<(u8, Seq<u8>), TransferError>(
            (seq_no, payload),
        ),
{
    let f = frame_of(seq_no, payload);
    assert(f.subrange(3, 131) =~= payload);
}

proof fn lemma_byte_sum_update(s: Seq<u8>, i: int, v: u8)
    requires
        0 <= i < s.len(),
    ensures
        byte_sum(s.update(i, v)) == byte_sum(s) - s[i] + v,
    decreases s.len(),
{
    if i == s.len() - 1 {
        assert(s.update(i, v).drop_last() =~= s.drop_last());
        assert(s.update(i, v).last() == v);
    } else {
        lemma_byte_sum_update(s.drop_last(), i, v);
        assert(s.update(i, v).drop_last() =~= s.drop_last().update(i, v));
        assert(s.update(i, v).last() == s.last());
    }
}

/// Law: the checksum detects every single-byte change. Replacing one payload
/// byte by a different value always changes the checksum, because the byte
/// sums of the two payloads differ by less than 256 in absolute value.
pub proof fn lemma_checksum_detects_single_byte_change(s: Seq<u8>, i: int, v: u8)
    requires
        0 <= i < s.len(),
        s[i] != v,
    ensures
        checksum_of(s.update(i, v)) != checksum_of(s),
{
    lemma_byte_sum_update(s, i, v);
    let a = byte_sum(s);
    let b = byte_sum(s.update(i, v));
    let d = v - s[i];
    assert(b == a + d);
    assert(d != 0 && -256 < d < 256);
    lemma_fundamental_div_mod(a, 256);
    lemma_fundamental_div_mod(b, 256);
    if a % 256 == b % 256 {
        assert(256 * (b / 256) - 256 * (a / 256) == d);
        assert(256 * (b / 256 - a / 256) == d) by (nonlinear_arith)
            requires
                256 * (b / 256) - 256 * (a / 256) == d,
        ;
        assert(false) by (nonlinear_arith)
            requires
                256 * (b / 256 - a / 256) == d,
                d != 0 && -256 < d < 256,
        ;
    }
}

} // verus!
