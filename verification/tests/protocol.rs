use xmodem::channel::ScriptChannel;
use xmodem::codec::{decode, encode, get_checksum, TransferError, ACK, CAN, EOT, NAK, SOH};
use xmodem::progress::ProgressLog;
use xmodem::xmodem::Xmodem;

const PL: usize = 128;

fn frame(seq: u8, payload: &[u8]) -> Vec<u8> {
    assert_eq!(payload.len(), PL);
    encode(seq, payload)
}

fn pad(data: &[u8]) -> Vec<u8> {
    let mut p = data.to_vec();
    while p.len() % PL != 0 || (p.is_empty() && !data.is_empty()) {
        p.push(0);
    }
    p
}

fn replies(packets: usize) -> Vec<u8> {
    let mut r = vec![NAK];
    for _ in 0..packets {
        r.push(ACK);
    }
    r.push(NAK);
    r.push(ACK);
    r
}

#[test]
fn checksum_is_sum_mod_256() {
    assert_eq!(get_checksum(&[]), 0);
    assert_eq!(get_checksum(&[1, 2, 3]), 6);
    assert_eq!(get_checksum(&[200, 100]), 44); // 300 % 256
    assert_eq!(get_checksum(&[255, 1]), 0);
}

#[test]
fn checksum_changes_on_single_byte_change() {
    let mut payload = vec![7u8; PL];
    let base = get_checksum(&payload);
    payload[17] = 8;
    assert_ne!(get_checksum(&payload), base);
}

#[test]
fn encode_layout() {
    let mut payload = vec![0u8; PL];
    payload[0] = 9;
    payload[127] = 1;
    let f = encode(3, &payload);
    assert_eq!(f.len(), 132);
    assert_eq!(f[0], SOH);
    assert_eq!(f[1], 3);
    assert_eq!(f[2], 252);
    assert_eq!(&f[3..131], &payload[..]);
    assert_eq!(f[131], 10);
}

#[test]
fn decode_of_encode_round_trips() {
    for seq in [0u8, 1, 5, 24, 255] {
        let payload: Vec<u8> = (0..PL).map(|i| (i as u8).wrapping_mul(3)).collect();
        let f = encode(seq, &payload);
        let (s, p) = decode(&f).expect("frame must parse");
        assert_eq!(s, seq);
        assert_eq!(p, payload);
    }
}

#[test]
fn decode_rejects_bad_frames() {
    let payload = vec![5u8; PL];
    let good = encode(7, &payload);

    let mut bad_header = good.clone();
    bad_header[0] = EOT;
    assert_eq!(decode(&bad_header), Err(TransferError::InvalidData));

    let mut bad_complement = good.clone();
    bad_complement[2] = 0;
    assert_eq!(decode(&bad_complement), Err(TransferError::InvalidData));

    let mut bad_checksum = good.clone();
    bad_checksum[131] = bad_checksum[131].wrapping_add(1);
    assert_eq!(decode(&bad_checksum), Err(TransferError::Interrupted));

    assert_eq!(decode(&good[..100]), Err(TransferError::InvalidData));
}

#[test]
fn transmit_empty_source_goes_straight_to_eot() {
    let ch = ScriptChannel::new(vec![NAK, NAK, ACK]);
    let (r, ch) = Xmodem::transmit(&[], ch);
    assert_eq!(r, Ok(0));
    assert_eq!(ch.sent(), &vec![EOT, EOT]);
}

#[test]
fn transmit_ten_bytes_nak_then_ack() {
    // Initial handshake NAK, then the peer rejects the first attempt with
    // NAK and accepts the second with ACK, then the EOT handshake.
    let data: Vec<u8> = (1..=10).collect();
    let ch = ScriptChannel::new(vec![NAK, NAK, ACK, NAK, ACK]);
    let (r, ch) = Xmodem::transmit(&data, ch);
    assert_eq!(r, Ok(10));
    let f = frame(1, &pad(&data));
    let mut wire = f.clone();
    wire.extend_from_slice(&f);
    wire.push(EOT);
    wire.push(EOT);
    assert_eq!(ch.sent(), &wire);
    // One 132-byte frame with 118 trailing zero padding bytes.
    assert_eq!(f.len(), 132);
    assert!(f[13..131].iter().all(|b| *b == 0));
}

#[test]
fn transmit_256_bytes_uses_sequence_1_then_2() {
    let data = vec![9u8; 256];
    let ch = ScriptChannel::new(replies(2));
    let (r, ch) = Xmodem::transmit(&data, ch);
    assert_eq!(r, Ok(256));
    let sent = ch.sent();
    assert_eq!(sent.len(), 2 * 132 + 2);
    assert_eq!(sent[1], 1);
    assert_eq!(sent[132 + 1], 2);
    assert_eq!(&sent[264..], &[EOT, EOT]);
}

#[test]
fn transmit_counts_packets_per_128_bytes() {
    for (len, packets) in [(0usize, 0usize), (1, 1), (128, 1), (129, 2), (300, 3)] {
        let data = vec![1u8; len];
        let ch = ScriptChannel::new(replies(packets));
        let (r, ch) = Xmodem::transmit(&data, ch);
        assert_eq!(r, Ok(len));
        assert_eq!(ch.sent().len(), packets * 132 + 2);
    }
}

#[test]
fn retry_budget_nine_naks_then_ack_succeeds() {
    let data = vec![3u8; 16];
    let mut script = vec![NAK];
    for _ in 0..9 {
        script.push(NAK);
    }
    script.push(ACK);
    script.push(NAK);
    script.push(ACK);
    let ch = ScriptChannel::new(script);
    let (r, ch) = Xmodem::transmit(&data, ch);
    assert_eq!(r, Ok(16));
    // Ten attempts of the same frame, then the two EOT bytes.
    assert_eq!(ch.sent().len(), 10 * 132 + 2);
}

#[test]
fn retry_budget_ten_naks_is_broken_pipe() {
    let data = vec![3u8; 300];
    let mut script = vec![NAK];
    for _ in 0..10 {
        script.push(NAK);
    }
    script.push(ACK);
    let ch = ScriptChannel::new(script);
    let (r, ch) = Xmodem::transmit(&data, ch);
    assert_eq!(r, Err(TransferError::BrokenPipe));
    // Ten attempts of the first packet and nothing further.
    let sent = ch.sent();
    assert_eq!(sent.len(), 10 * 132);
    for a in 0..10 {
        assert_eq!(sent[a * 132 + 1], 1);
    }
}

#[test]
fn can_in_place_of_ack_aborts_at_once() {
    let data = vec![1u8; 64];
    let ch = ScriptChannel::new(vec![NAK, CAN, ACK, NAK, ACK]);
    let (r, ch) = Xmodem::transmit(&data, ch);
    assert_eq!(r, Err(TransferError::ConnectionAborted));
    // One frame only: no retry after the CAN.
    assert_eq!(ch.sent().len(), 132);
    // The rest of the script was never consumed.
    assert_eq!(ch.pending(), &vec![ACK, NAK, ACK]);
}

#[test]
fn can_in_place_of_initial_nak_aborts() {
    let ch = ScriptChannel::new(vec![CAN]);
    let (r, ch) = Xmodem::transmit(&[1, 2, 3], ch);
    assert_eq!(r, Err(TransferError::ConnectionAborted));
    assert!(ch.sent().is_empty());
}

#[test]
fn bad_initial_handshake_byte_is_invalid_data() {
    let ch = ScriptChannel::new(vec![ACK]);
    let (r, _) = Xmodem::transmit(&[1, 2, 3], ch);
    assert_eq!(r, Err(TransferError::InvalidData));
}

#[test]
fn round_trip_through_loopback() {
    let data: Vec<u8> = (0..300).map(|i| (i % 251) as u8).collect();
    let tx = ScriptChannel::new(replies(3));
    let (sent_total, tx) = Xmodem::transmit(&data, tx);
    assert_eq!(sent_total, Ok(300));

    let rx = ScriptChannel::new(tx.sent().clone());
    let mut sink: Vec<u8> = Vec::new();
    let (recv_total, rx) = Xmodem::receive(rx, &mut sink);
    assert_eq!(recv_total, Ok(384));
    assert_eq!(sink.len(), 384);
    assert_eq!(&sink[..300], &data[..]);
    assert!(sink[300..].iter().all(|b| *b == 0));
    // The receiver's replies are exactly the stream the sender consumed.
    assert_eq!(rx.sent(), &replies(3));
}

#[test]
fn round_trip_empty_source() {
    let tx = ScriptChannel::new(replies(0));
    let (sent_total, tx) = Xmodem::transmit(&[], tx);
    assert_eq!(sent_total, Ok(0));
    let rx = ScriptChannel::new(tx.sent().clone());
    let mut sink: Vec<u8> = Vec::new();
    let (recv_total, rx) = Xmodem::receive(rx, &mut sink);
    assert_eq!(recv_total, Ok(0));
    assert!(sink.is_empty());
    assert_eq!(rx.sent(), &replies(0));
}

#[test]
fn receiver_rejects_wrong_sequence_with_can() {
    // A receiver expecting sequence 1 handed a frame carrying sequence 5.
    let payload = vec![42u8; PL];
    let script = frame(5, &payload);
    let rx = ScriptChannel::new(script);
    let mut sink: Vec<u8> = Vec::new();
    let (r, rx) = Xmodem::receive(rx, &mut sink);
    assert_eq!(r, Err(TransferError::InvalidData));
    assert!(sink.is_empty());
    assert_eq!(rx.sent(), &vec![NAK, CAN]);
}

#[test]
fn receiver_naks_checksum_mismatch_then_accepts() {
    let payload = vec![11u8; PL];
    let mut bad = frame(1, &payload);
    bad[131] = bad[131].wrapping_add(1);
    let mut script = bad;
    script.extend_from_slice(&frame(1, &payload));
    script.push(EOT);
    script.push(EOT);
    let rx = ScriptChannel::new(script);
    let mut sink: Vec<u8> = Vec::new();
    let (r, rx) = Xmodem::receive(rx, &mut sink);
    assert_eq!(r, Ok(128));
    assert_eq!(sink, payload);
    assert_eq!(rx.sent(), &vec![NAK, NAK, ACK, NAK, ACK]);
}

#[test]
fn receiver_aborts_on_can() {
    let rx = ScriptChannel::new(vec![CAN]);
    let mut sink: Vec<u8> = Vec::new();
    let (r, _) = Xmodem::receive(rx, &mut sink);
    assert_eq!(r, Err(TransferError::ConnectionAborted));
    assert!(sink.is_empty());
}

#[test]
fn sequence_wraps_through_zero_after_255() {
    // 256 acknowledged packets sent one at a time: the sequence numbers on
    // the wire run 1..=255 and then 0.
    let script = vec![ACK; 256];
    let mut session = Xmodem::new(ScriptChannel::new(script));
    let payload = vec![0u8; PL];
    for _ in 0..256 {
        assert_eq!(session.write_packet(&payload), Ok(128));
    }
    let ch = session.into_inner();
    let sent = ch.sent();
    assert_eq!(sent.len(), 256 * 132);
    assert_eq!(sent[1], 1);
    assert_eq!(sent[254 * 132 + 1], 255);
    assert_eq!(sent[255 * 132 + 1], 0);
    assert_eq!(sent[255 * 132 + 2], 255);
}

#[test]
fn progress_reports_each_advanced_sequence() {
    let mut session =
        Xmodem::new_with_progress(ScriptChannel::new(vec![ACK, ACK, NAK, ACK]), ProgressLog::new());
    let payload = vec![0u8; PL];
    assert_eq!(session.write_packet(&payload), Ok(128));
    assert_eq!(session.write_packet(&payload), Ok(128));
    assert_eq!(session.write_packet(&payload), Err(TransferError::Interrupted));
    // One notification per acknowledged packet, carrying the new sequence
    // number; the rejected attempt reports nothing.
    assert_eq!(session.progress().seen, vec![2, 3]);
}

#[test]
fn transmit_with_progress_succeeds_like_transmit() {
    let data = vec![8u8; 256];
    let ch = ScriptChannel::new(replies(2));
    let (r, ch) = Xmodem::transmit_with_progress(&data, ch, ProgressLog::new());
    assert_eq!(r, Ok(256));
    assert_eq!(ch.sent().len(), 2 * 132 + 2);
}

#[test]
fn send_packet_attempts_retries_same_sequence() {
    let mut session = Xmodem::new(ScriptChannel::new(vec![NAK, NAK, ACK]));
    let payload = vec![1u8; PL];
    assert_eq!(session.send_packet_attempts(&payload), Ok(128));
    let ch = session.into_inner();
    let sent = ch.sent();
    assert_eq!(sent.len(), 3 * 132);
    assert_eq!(sent[1], 1);
    assert_eq!(sent[132 + 1], 1);
    assert_eq!(sent[264 + 1], 1);
}

#[test]
fn write_packet_empty_buffer_runs_eot_handshake() {
    // A fresh session first consumes the pending initial NAK, then performs
    // EOT, NAK, EOT, ACK.
    let mut session = Xmodem::new(ScriptChannel::new(vec![NAK, NAK, ACK]));
    assert_eq!(session.write_packet(&[]), Ok(0));
    let ch = session.into_inner();
    assert_eq!(ch.sent(), &vec![EOT, EOT]);
}

#[test]
fn read_packet_rejects_small_buffer_before_any_io() {
    let mut session = Xmodem::new(ScriptChannel::new(vec![EOT, EOT]));
    let mut buf = vec![0u8; 64];
    assert_eq!(session.read_packet(&mut buf), Err(TransferError::BufferTooSmall));
    let ch = session.into_inner();
    assert!(ch.sent().is_empty());
    assert_eq!(ch.pending().len(), 2);
}

#[test]
fn read_packet_delivers_payload_and_acks() {
    let payload: Vec<u8> = (0..PL).map(|i| i as u8).collect();
    let mut session = Xmodem::new(ScriptChannel::new(frame(1, &payload)));
    let mut buf = vec![0u8; PL];
    assert_eq!(session.read_packet(&mut buf), Ok(128));
    assert_eq!(buf, payload);
    let ch = session.into_inner();
    assert_eq!(ch.sent(), &vec![ACK]);
}

#[test]
fn channel_running_dry_is_a_channel_failure() {
    let ch = ScriptChannel::new(vec![NAK]);
    let (r, _) = Xmodem::transmit(&[1u8; 4], ch);
    assert_eq!(r, Err(TransferError::ChannelFailure));
}

#[test]
fn receiver_aborts_when_a_sequence_byte_equals_can() {
    // The 24th packet carries sequence number 0x18, which is the CAN byte;
    // the receiver reads sequence bytes with abort-on-CAN active, so a
    // transfer that long cannot complete.
    let payload = vec![0u8; PL];
    let mut wire = Vec::new();
    for i in 0..24u16 {
        wire.extend_from_slice(&frame((1 + i) as u8, &payload));
    }
    wire.push(EOT);
    wire.push(EOT);
    let rx = ScriptChannel::new(wire);
    let mut sink: Vec<u8> = Vec::new();
    let (r, _) = Xmodem::receive(rx, &mut sink);
    assert_eq!(r, Err(TransferError::ConnectionAborted));
    assert_eq!(sink.len(), 23 * 128);
}
