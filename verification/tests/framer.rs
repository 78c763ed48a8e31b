use std::borrow::Cow;

use ammo::framer::framer::Framer;
use ammo::framer::header::{Header, HeaderDecodingError};
use ammo::framer::message::{Message, MessageIdentifier};
use ammo::framer::parser::{Parser, ParserError, ParserOutcome};
use ammo::framer::varint::{decode_varint, encode_varint, VarintError};

#[test]
fn test_cursor() {
    let mut framer = Framer::with_buffer((0..100).collect(), 4);

    assert_eq!(framer.read_front(4), &[0, 1, 2, 3]);
    framer.advance_cursor(4);
    assert_eq!(framer.read_front(4), &[4, 5, 6, 7]);
    framer.advance_cursor(4);
    assert_eq!(framer.read_front(4), &[8, 9, 10, 11]);
    framer.advance_cursor(2);

    // We advanced by 10; we have 100 in the buffer. Let's go to 90.
    framer.advance_cursor(80);
    assert_eq!(framer.cursor(), 90);

    // Now let's read the end.
    assert_eq!(
        framer.read_front(10),
        &[90, 91, 92, 93, 94, 95, 96, 97, 98, 99]
    );

    // This triggers an advancement.
    framer.advance_cursor(6);
    assert_eq!(framer.read_front(4), &[96, 97, 98, 99]);
    assert_eq!(framer.buffer_len(), 4);
}

fn check_roundtrip(input: u64) {
    let mut buf = vec![];
    encode_varint(input, &mut buf);
    let output = decode_varint(&mut &buf[..]).expect("Should decode");
    assert_eq!(input, output, "{:?}", buf);
}

#[test]
fn test_basic_roundtrips() {
    check_roundtrip(0);
    check_roundtrip(u64::MAX);
    check_roundtrip(u32::MAX as u64);
    check_roundtrip(u16::MAX as u64);
    check_roundtrip(u8::MAX as u64);
}

#[test]
fn test_encoding_error_conditions() {
    assert_eq!(decode_varint(&mut &vec![][..]), Err(VarintError::NoData));
    assert_eq!(
        decode_varint(&mut &vec![0x80, 0xff][..]),
        Err(VarintError::Incomplete(0b11111110000000))
    );
}

#[test]
fn varint_exact_encodings() {
    let mut buf = vec![];
    encode_varint(300, &mut buf);
    assert_eq!(buf, vec![0xac, 0x02]);
    let mut buf = vec![];
    encode_varint(u64::MAX, &mut buf);
    assert_eq!(buf, vec![0xff, 0xff, 0xff, 0xff, 0xff, 0xff, 0xff, 0xff, 0xff, 0x01]);
}

#[test]
fn varint_too_long_and_cursor() {
    let bytes = vec![0xffu8; 12];
    let mut cur = &bytes[..];
    assert_eq!(decode_varint(&mut cur), Err(VarintError::TooLong));
    assert_eq!(cur.len(), 2);

    let bytes = vec![0x05u8, 0x07, 0x09];
    let mut cur = &bytes[..];
    assert_eq!(decode_varint(&mut cur), Ok(5));
    assert_eq!(cur, &[0x07, 0x09]);
}

#[test]
fn header_roundtrip_and_errors() {
    let h = Header { namespace: 7, id: 0x1234 };
    let mut buf = vec![];
    h.encode(&mut buf);
    assert_eq!(buf, vec![7, 0x12, 0x34]);
    buf.push(99);
    let mut cur = &buf[..];
    assert_eq!(Header::decode(&mut cur), Ok(h));
    assert_eq!(cur, &[99]);
    let short = vec![1u8, 2];
    assert_eq!(Header::decode(&mut &short[..]), Err(HeaderDecodingError::NotEnoughData));
}

#[test]
fn test_length_limit() {
    let mut parser = Parser::new(Some(10), 1024);

    // Our message: 11 bytes, header is NotSimulation id (0, 0),Rest of the data is just zeroed.
    let data = vec![11, 0, 0, 0, 0, 0, 0, 0, 0, 0, 0, 0, 0];
    let err = parser.feed(&data[..]).err().expect("should be error");
    assert!(matches!(err, ParserError::MessageTooLong));
}

fn msg(namespace: u8, id: u16, data: Vec<u8>) -> Message<'static> {
    Message::new(MessageIdentifier { namespace, id }, Cow::Owned(data))
}

#[test]
fn frame_then_parse_in_small_chunks() {
    let messages = vec![
        msg(1, 2, vec![1, 2, 3]),
        msg(0, 0, vec![]),
        msg(255, 65535, (0..200).map(|x| x as u8).collect()),
    ];
    let mut framer = Framer::new();
    for m in messages.iter() {
        framer.add_message(m);
    }
    let bytes = framer.get_data().to_vec();
    framer.clear();
    assert_eq!(framer.get_data().len(), 0);

    let mut parser = Parser::new(None, 1024);
    let mut parsed = vec![];
    for chunk in bytes.chunks(4) {
        parser.feed(chunk).expect("Should feed");
        loop {
            let next = match parser.read_message().expect("Should read") {
                ParserOutcome::Message(m) => m.clone_static(),
                ParserOutcome::MoreDataRequired(_) => break,
            };
            parsed.push(next);
            parser.roll_forward().expect("Should roll");
        }
    }
    assert_eq!(parsed, messages);
    assert_eq!(parser.contained_bytes(), 0);
}

#[test]
fn parser_reports_short_and_missing_data() {
    let mut parser = Parser::new(None, 16);
    assert!(matches!(parser.read_message(), Ok(ParserOutcome::MoreDataRequired(0))));
    parser.feed(&[2, 0, 0]).unwrap();
    assert!(matches!(parser.read_message(), Err(ParserError::MessageTooShort)));

    let mut parser = Parser::new(None, 16);
    parser.feed(&[5, 1, 0, 2]).unwrap();
    assert!(matches!(parser.read_message(), Ok(ParserOutcome::MoreDataRequired(2))));
}

#[test]
fn parser_limit_on_partial_length() {
    let mut parser = Parser::new(Some(100), 16);
    // An incomplete varint whose value so far is 0x7f * 128 = 16256.
    let _ = parser.feed(&[0x80, 0xff]);
    assert!(matches!(parser.read_message(), Err(ParserError::MessageTooLong)));
    let mut parser = Parser::new(Some(100), 16);
    parser.feed(&[0x81]).unwrap();
    assert!(matches!(parser.read_message(), Ok(ParserOutcome::MoreDataRequired(0))));
}

#[test]
fn framer_steal_and_pending() {
    let mut framer = Framer::new();
    framer.add_message(&msg(1, 1, vec![9]));
    assert_eq!(framer.pending_bytes(), 5);
    let stolen = framer.steal();
    assert_eq!(stolen.get_data(), &[4, 1, 0, 1, 9]);
    assert_eq!(framer.get_data().len(), 0);
    assert_eq!(framer.pending_bytes(), 0);
}

#[test]
fn message_len_and_clone() {
    let data = vec![1u8, 2, 3];
    let m = Message::new(MessageIdentifier { namespace: 3, id: 4 }, Cow::Borrowed(&data[..]));
    assert_eq!(m.len(), 3);
    let s = m.clone_static();
    assert_eq!(s, m);
}

#[test]
fn parser_reports_varint_errors() {
    let mut parser = Parser::new(None, 16);
    parser.feed(&[0xff; 11]).unwrap();
    assert!(matches!(
        parser.read_message(),
        Err(ParserError::VarintError(VarintError::TooLong))
    ));
    assert!(matches!(
        parser.roll_forward(),
        Err(ParserError::VarintError(VarintError::TooLong))
    ));
    let mut limited = Parser::new(Some(5), 16);
    assert!(matches!(
        limited.feed(&[0xff; 11]),
        Err(ParserError::VarintError(VarintError::TooLong))
    ));
}

#[test]
fn clear_leaves_nothing_to_consume() {
    let mut framer = Framer::with_buffer((0..100).collect(), 1000);
    framer.advance_cursor(30);
    framer.clear();
    assert!(framer.get_data().is_empty());
    assert_eq!(framer.cursor(), 0);
    assert_eq!(framer.pending_bytes(), 0);
    assert!(framer.read_front(5).is_empty());
}

#[test]
fn clone_static_owns_its_payload() {
    let data = vec![1u8, 2];
    let m = Message::new(MessageIdentifier { namespace: 1, id: 2 }, Cow::Borrowed(&data[..]));
    let s = m.clone_static();
    assert!(matches!(s.data, Cow::Owned(_)));
    assert_eq!(s, m);
}
