use fchat3_log_reader::codec::{decode_backward, decode_forward, encode_messages, encode_record, Decoded};
use fchat3_log_reader::message::{LogMessage, MessageKind};
use fchat3_log_reader::pipeline::read_all;
use fchat3_log_reader::reader::{ForwardReader, ReadItem, ReverseReader};

fn msg(timestamp: u32, kind: MessageKind, sender: &str, body: &str) -> LogMessage {
    LogMessage { timestamp, kind, sender: sender.to_string(), body: body.to_string(), encoded_size: 0 }
}

fn same(a: &LogMessage, b: &LogMessage) -> bool {
    a.timestamp == b.timestamp && a.kind == b.kind && a.sender == b.sender && a.body == b.body
}

fn bob_hi() -> Vec<u8> {
    let mut out = Vec::new();
    encode_record(&msg(1_000_000_000, MessageKind::Message, "Bob", "Hi"), &mut out);
    out
}

#[test]
fn single_record_bytes() {
    let b = bob_hi();
    assert_eq!(
        b,
        vec![0x00, 0xCA, 0x9A, 0x3B, 0, 3, b'B', b'o', b'b', 2, 0, b'H', b'i', 13, 0]
    );
}

#[test]
fn single_record_forward_then_end() {
    let b = bob_hi();
    match decode_forward(&b, 0, true) {
        Decoded::Record(m, next) => {
            assert!(same(&m, &msg(1_000_000_000, MessageKind::Message, "Bob", "Hi")));
            assert_eq!(m.encoded_size, 15);
            assert_eq!(next, 15);
            assert!(matches!(decode_forward(&b, next, true), Decoded::End));
        }
        other => panic!("expected a record, got {:?}", other),
    }
}

#[test]
fn single_record_backward_then_end_at_zero() {
    let b = bob_hi();
    match decode_backward(&b, b.len(), true) {
        Decoded::Record(m, start) => {
            assert!(same(&m, &msg(1_000_000_000, MessageKind::Message, "Bob", "Hi")));
            assert_eq!(m.encoded_size, 15);
            assert_eq!(start, 0);
            assert!(matches!(decode_backward(&b, start, true), Decoded::End));
        }
        other => panic!("expected a record, got {:?}", other),
    }
}

#[test]
fn empty_source_ends_both_ways() {
    let b: Vec<u8> = Vec::new();
    assert!(matches!(decode_forward(&b, 0, true), Decoded::End));
    assert!(matches!(decode_backward(&b, 0, true), Decoded::End));
    let mut f = ForwardReader::new(b.clone(), true);
    assert!(f.next().is_none());
    let mut r = ReverseReader::new(b, true);
    assert!(r.next().is_none());
}

fn sample() -> Vec<LogMessage> {
    vec![
        msg(1_000_000_000, MessageKind::Message, "Bob", "Hi"),
        msg(1_000_000_100, MessageKind::Action, "Alice", " waves"),
        msg(1_000_000_200, MessageKind::Ad, "Shop", "Buy things"),
        msg(1_000_000_300, MessageKind::Roll, "Dice", "rolls 6"),
        msg(1_000_000_400, MessageKind::Warn, "Mod", "Be nice"),
        msg(1_000_000_500, MessageKind::Event, "", ""),
        msg(4_000_000_000, MessageKind::Message, "Zoë", "héllo\nwörld"),
    ]
}

#[test]
fn round_trip_forward() {
    let ms = sample();
    let b = encode_messages(&ms);
    let (out, corrupt) = read_all(b, false, true);
    assert!(!corrupt);
    assert_eq!(out.len(), ms.len());
    for (a, b) in out.iter().zip(ms.iter()) {
        assert!(same(a, b));
    }
}

#[test]
fn reverse_is_forward_reversed() {
    let ms = sample();
    let b = encode_messages(&ms);
    let (fwd, c1) = read_all(b.clone(), false, true);
    let (bwd, c2) = read_all(b, true, true);
    assert!(!c1 && !c2);
    assert_eq!(fwd.len(), bwd.len());
    for (a, b) in fwd.iter().zip(bwd.iter().rev()) {
        assert!(same(a, b));
        assert_eq!(a.encoded_size, b.encoded_size);
    }
}

#[test]
fn readers_yield_messages_in_order() {
    let ms = sample();
    let b = encode_messages(&ms);
    let mut f = ForwardReader::new(b.clone(), true);
    let mut n = 0;
    while let Some(item) = f.next() {
        match item {
            ReadItem::Message(m) => assert!(same(&m, &ms[n])),
            ReadItem::Corrupt => panic!("corrupt"),
        }
        n += 1;
    }
    assert_eq!(n, ms.len());
    let mut r = ReverseReader::new(b, true);
    while let Some(item) = r.next() {
        n -= 1;
        match item {
            ReadItem::Message(m) => assert!(same(&m, &ms[n])),
            ReadItem::Corrupt => panic!("corrupt"),
        }
    }
    assert_eq!(n, 0);
    assert_eq!(r.pos, 0);
}

#[test]
fn flipped_length_bit_is_corrupt_unless_unchecked() {
    for bit in 0..16 {
        let mut b = bob_hi();
        let at = 13 + bit / 8;
        b[at] ^= 1 << (bit % 8);
        assert!(matches!(decode_forward(&b, 0, true), Decoded::Corrupt));
        assert!(matches!(decode_backward(&b, b.len(), true), Decoded::Corrupt));
        match decode_forward(&b, 0, false) {
            Decoded::Record(m, next) => {
                assert!(same(&m, &msg(1_000_000_000, MessageKind::Message, "Bob", "Hi")));
                assert_eq!(next, 15);
            }
            other => panic!("expected a record, got {:?}", other),
        }
    }
}

#[test]
fn flipped_text_length_bit_is_corrupt() {
    let mut b = bob_hi();
    b[9] ^= 1;
    assert!(matches!(decode_forward(&b, 0, true), Decoded::Corrupt));
    assert!(matches!(decode_backward(&b, b.len(), true), Decoded::Corrupt));
}

#[test]
fn unknown_kind_is_corrupt() {
    let mut b = bob_hi();
    b[4] = 6;
    assert!(matches!(decode_forward(&b, 0, true), Decoded::Corrupt));
    assert!(matches!(decode_backward(&b, b.len(), true), Decoded::Corrupt));
}

#[test]
fn invalid_utf8_is_corrupt() {
    let mut b = bob_hi();
    b[6] = 0xFF;
    assert!(matches!(decode_forward(&b, 0, false), Decoded::Corrupt));
}

#[test]
fn truncated_record_is_corrupt() {
    let ms = sample();
    let mut b = encode_messages(&ms);
    b.truncate(b.len() - 3);
    let (out, corrupt) = read_all(b.clone(), false, true);
    assert!(corrupt);
    assert_eq!(out.len(), ms.len() - 1);
    let mut f = ForwardReader::new(b, true);
    for _ in 0..ms.len() - 1 {
        assert!(matches!(f.next(), Some(ReadItem::Message(_))));
    }
    assert!(matches!(f.next(), Some(ReadItem::Corrupt)));
    assert!(f.next().is_none());
}

#[test]
fn short_tail_is_corrupt_backward() {
    let b = vec![5u8];
    assert!(matches!(decode_backward(&b, 1, true), Decoded::Corrupt));
    let b = vec![0u8, 200, 0];
    assert!(matches!(decode_backward(&b, 3, true), Decoded::Corrupt));
}

#[test]
fn kind_codes_round_trip() {
    for (k, c) in [
        (MessageKind::Message, 0u8),
        (MessageKind::Action, 1),
        (MessageKind::Ad, 2),
        (MessageKind::Roll, 3),
        (MessageKind::Warn, 4),
        (MessageKind::Event, 5),
    ] {
        assert_eq!(k.code(), c);
        assert_eq!(MessageKind::from_code(c), Some(k));
    }
    assert_eq!(MessageKind::from_code(6), None);
}
