use slipframe::checksum::crc16_x25;
use slipframe::encoder::CommandWriter;
use slipframe::encoder::Error;
use slipframe::encoder::CAPACITY;
use slipframe::encoder::ESCAPE;
use slipframe::encoder::ESCAPE_END;
use slipframe::encoder::ESCAPE_ESCAPE;
use slipframe::encoder::FRAME_END;
use slipframe::encoder::PING_CONFIRM;
use slipframe::encoder::PING_REQUEST;

fn drain(w: &mut CommandWriter) -> Vec<u8> {
    let mut out: Vec<u8> = Vec::new();
    while let Some(b) = w.get_byte() {
        out.push(b);
        assert!(out.len() <= 2 * CAPACITY + 8, "drain did not terminate");
    }
    out
}

fn escapes_in(bytes: &[u8]) -> usize {
    bytes
        .iter()
        .filter(|&&b| b == FRAME_END || b == ESCAPE)
        .count()
}

#[test]
fn basic_ping_req() {
    let mut cw = CommandWriter::new();
    cw.send_ping_req();
    assert_eq!(cw.get_byte(), Some(FRAME_END));
    assert_eq!(cw.get_byte(), Some(PING_REQUEST));
    assert_eq!(cw.get_byte(), Some(0xE1));
    assert_eq!(cw.get_byte(), Some(0xF1));
    assert_eq!(cw.get_byte(), Some(FRAME_END));
    assert_eq!(cw.get_byte(), None);
}

#[test]
fn basic_ping_cfm() {
    let mut cw = CommandWriter::new();
    cw.send_ping_cfm();
    assert_eq!(cw.get_byte(), Some(FRAME_END));
    assert_eq!(cw.get_byte(), Some(PING_CONFIRM));
    assert_eq!(cw.get_byte(), Some(0x65));
    assert_eq!(cw.get_byte(), Some(0xF9));
    assert_eq!(cw.get_byte(), Some(FRAME_END));
    assert_eq!(cw.get_byte(), None);
}

#[test]
fn crc16_x25_known_vectors() {
    assert_eq!(crc16_x25(&[]), 0x0000);
    assert_eq!(crc16_x25(&[0x01]), 0xE1F1);
    assert_eq!(crc16_x25(&[0x81]), 0x65F9);
    assert_eq!(crc16_x25(b"123456789"), 0x906E);
}

#[test]
fn plain_payload_frame_is_length_plus_four() {
    // Neither the payload nor the checksum 0xE1F1 contains a byte that
    // needs escaping, so the frame is exactly L + 4 bytes long.
    let payload = [0x01u8, 0x02, 0x03];
    let mut cw = CommandWriter::new();
    cw.load_payload(&payload).unwrap();
    cw.prep_for_send();
    let crc = crc16_x25(&payload);
    assert_eq!(escapes_in(&payload), 0);
    assert_eq!(escapes_in(&[(crc >> 8) as u8, (crc & 0xff) as u8]), 0);
    let frame = drain(&mut cw);
    assert_eq!(frame.len(), payload.len() + 4);
}

#[test]
fn frame_length_counts_escaped_bytes() {
    // Two payload bytes need escaping; together with any escapes among the
    // checksum bytes the frame is L + 4 + k bytes long.
    let payload = [0xC0u8, 0xDB, 0x01];
    let crc = crc16_x25(&payload);
    let k = escapes_in(&payload) + escapes_in(&[(crc >> 8) as u8, (crc & 0xff) as u8]);
    let mut cw = CommandWriter::new();
    cw.load_payload(&payload).unwrap();
    cw.prep_for_send();
    let frame = drain(&mut cw);
    assert_eq!(frame.len(), payload.len() + 4 + k);
}

#[test]
fn escaped_checksum_lengthens_frame() {
    // The payload needs no escaping, but its checksum is 0xC0F3 whose high
    // byte collides with the delimiter, so one extra byte appears.
    let payload = [0x21u8];
    assert_eq!(crc16_x25(&payload), 0xC0F3);
    let mut cw = CommandWriter::new();
    cw.load_payload(&payload).unwrap();
    cw.prep_for_send();
    let frame = drain(&mut cw);
    assert_eq!(
        frame,
        vec![FRAME_END, 0x21, ESCAPE, ESCAPE_END, 0xF3, FRAME_END]
    );
}

#[test]
fn checksum_is_big_endian_on_the_wire() {
    let payload = [0x10u8, 0x20];
    let crc = crc16_x25(&payload);
    let mut cw = CommandWriter::new();
    cw.load_payload(&payload).unwrap();
    cw.prep_for_send();
    let frame = drain(&mut cw);
    // No byte of this frame needs escaping, so the checksum bytes sit just
    // before the closing delimiter, high byte first.
    assert_eq!(frame[frame.len() - 3], (crc >> 8) as u8);
    assert_eq!(frame[frame.len() - 2], (crc & 0xff) as u8);
}

#[test]
fn reset_and_reload_reproduces_frame() {
    let payload = [0x01u8, 0xC0, 0x7F, 0xDB];
    let mut cw = CommandWriter::new();
    cw.load_payload(&payload).unwrap();
    cw.prep_for_send();
    let first = drain(&mut cw);
    cw.reset();
    cw.load_payload(&payload).unwrap();
    cw.prep_for_send();
    let second = drain(&mut cw);
    assert_eq!(first, second);
}

#[test]
fn reset_mid_drain_abandons_frame() {
    let payload = [0x01u8, 0xC0, 0x7F];
    let mut cw = CommandWriter::new();
    cw.load_payload(&payload).unwrap();
    cw.prep_for_send();
    let whole = drain(&mut cw);
    cw.load_payload(&payload).unwrap();
    cw.prep_for_send();
    // Abandon the drain mid-escape, then start over: the stale escape state
    // must not leak into the new frame.
    for _ in 0..3 {
        cw.get_byte();
    }
    cw.reset();
    cw.load_payload(&payload).unwrap();
    cw.prep_for_send();
    assert_eq!(drain(&mut cw), whole);
}

#[test]
fn pull_after_exhaustion_keeps_returning_none() {
    let mut cw = CommandWriter::new();
    cw.send_ping_req();
    let frame = drain(&mut cw);
    assert_eq!(frame.len(), 5);
    for _ in 0..4 {
        assert_eq!(cw.get_byte(), None);
    }
    // Exhausted pulls had no side effect: finalizing again replays the
    // identical frame.
    cw.prep_for_send();
    assert_eq!(drain(&mut cw), frame);
}

#[test]
fn delimiter_payload_byte_is_stuffed() {
    let payload = [0xC0u8];
    assert_eq!(crc16_x25(&payload), 0x3674);
    let mut cw = CommandWriter::new();
    cw.load_payload(&payload).unwrap();
    cw.prep_for_send();
    let frame = drain(&mut cw);
    assert_eq!(
        frame,
        vec![FRAME_END, ESCAPE, ESCAPE_END, 0x36, 0x74, FRAME_END]
    );
    // No bare delimiter inside the frame body.
    for &b in &frame[1..frame.len() - 1] {
        assert_ne!(b, FRAME_END);
    }
}

#[test]
fn escape_payload_byte_is_stuffed() {
    let payload = [0xDBu8];
    let mut cw = CommandWriter::new();
    cw.load_payload(&payload).unwrap();
    cw.prep_for_send();
    let frame = drain(&mut cw);
    assert_eq!(frame[1], ESCAPE);
    assert_eq!(frame[2], ESCAPE_ESCAPE);
    for &b in &frame[1..frame.len() - 1] {
        assert_ne!(b, FRAME_END);
    }
}

#[test]
fn payload_of_capacity_succeeds() {
    let mut payload = [0u8; 32];
    for (i, slot) in payload.iter_mut().enumerate() {
        *slot = i as u8;
    }
    let mut cw = CommandWriter::new();
    assert_eq!(cw.load_payload(&payload), Ok(()));
    cw.prep_for_send();
    let crc = crc16_x25(&payload);
    let k = escapes_in(&payload) + escapes_in(&[(crc >> 8) as u8, (crc & 0xff) as u8]);
    let frame = drain(&mut cw);
    assert_eq!(frame.len(), payload.len() + 4 + k);
}

#[test]
fn payload_over_capacity_is_rejected() {
    let payload = [0u8; 33];
    let mut cw = CommandWriter::new();
    cw.send_ping_req();
    assert_eq!(cw.load_payload(&payload), Err(Error::BufferOverflow));
    // The rejected load left the encoder untouched: the ping frame drains
    // as if nothing had happened.
    let frame = drain(&mut cw);
    assert_eq!(frame, vec![FRAME_END, PING_REQUEST, 0xE1, 0xF1, FRAME_END]);
}

#[test]
fn empty_payload_frame() {
    let mut cw = CommandWriter::new();
    cw.load_payload(&[]).unwrap();
    cw.prep_for_send();
    let frame = drain(&mut cw);
    assert_eq!(frame, vec![FRAME_END, 0x00, 0x00, FRAME_END]);
}

#[test]
fn load_and_finalize_matches_ping_shorthand() {
    let mut a = CommandWriter::new();
    a.send_ping_req();
    let mut b = CommandWriter::new();
    b.load_payload(&[PING_REQUEST]).unwrap();
    b.prep_for_send();
    assert_eq!(drain(&mut a), drain(&mut b));
}

#[test]
fn error_vocabulary_is_complete() {
    let all = [
        Error::BadChecksum,
        Error::BadHeader,
        Error::BufferOverflow,
        Error::FileNotFound,
        Error::BadOffset,
    ];
    for (i, a) in all.iter().enumerate() {
        for (j, b) in all.iter().enumerate() {
            assert_eq!(a == b, i == j);
        }
    }
}
