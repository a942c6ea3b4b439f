//! Frames, DNS messages, addresses, and text.
use corplink_tunnel::dns::{build_dns_query, dns_readable, parse_dns_a};
use corplink_tunnel::frame::{frame, FrameReader, ReadStep, MAX_MESSAGE};
use corplink_tunnel::ipv4::{parse_ipv4, Ipv4};
use corplink_tunnel::text::{contains, find_from, parse_u8};

#[test]
fn frame_puts_the_length_in_front() {
    assert_eq!(frame(b"abc"), vec![3, 0, 0, 0, b'a', b'b', b'c']);
    assert_eq!(frame(b""), vec![0, 0, 0, 0]);
    let long = frame(&vec![7u8; 0x1_0203]);
    assert_eq!(&long[..4], &[3, 2, 1, 0]);
    assert_eq!(long.len(), 0x1_0203 + 4);
}

fn read_stream(stream: &[u8]) -> (Vec<Vec<u8>>, bool) {
    let mut reader = FrameReader::Header;
    let mut at = 0;
    let mut out = Vec::new();
    loop {
        let n = reader.wants();
        if reader == FrameReader::Broken || at + n > stream.len() {
            return (out, reader == FrameReader::Broken);
        }
        match reader.feed(stream[at..at + n].to_vec()) {
            ReadStep::More => {}
            ReadStep::Message(m) => out.push(m),
            ReadStep::Stop => return (out, true),
        }
        at += n;
    }
}

#[test]
fn reader_gives_back_what_was_framed() {
    let list: Vec<Vec<u8>> = vec![vec![1], vec![2; 300], vec![3; MAX_MESSAGE]];
    let mut stream = Vec::new();
    for m in &list {
        stream.extend_from_slice(&frame(m));
    }
    assert_eq!(read_stream(&stream), (list, false));
}

#[test]
fn reader_stops_at_a_bad_length() {
    let mut stream = frame(b"ok");
    stream.extend_from_slice(&[0, 0, 0, 0]);
    stream.extend_from_slice(&frame(b"never"));
    assert_eq!(read_stream(&stream), (vec![b"ok".to_vec()], true));
    assert_eq!(read_stream(&[0, 0, 1, 0, 9]), (vec![], true));
    assert_eq!(read_stream(&[255, 255, 0, 0]), (vec![], false));
    let mut broken = FrameReader::Broken;
    assert_eq!(broken.wants(), 0);
    assert!(matches!(broken.feed(Vec::new()), ReadStep::Stop));
}

#[test]
fn query_has_the_wire_form() {
    let expected: Vec<u8> = vec![
        0x12, 0x34, 1, 0, 0, 1, 0, 0, 0, 0, 0, 0, 1, b'a', 2, b'b', b'c', 0, 0, 1, 0, 1,
    ];
    assert_eq!(build_dns_query("a.bc", 0x1234), expected);
    assert_eq!(build_dns_query("", 1)[12..], [0, 0, 0, 1, 0, 1]);
    assert_eq!(build_dns_query("a.", 1)[12..], [1, b'a', 0, 0, 0, 1, 0, 1]);
    // The length byte of an overlong label keeps the low eight bits.
    let long = "x".repeat(300);
    assert_eq!(build_dns_query(&long, 1)[12], 44);
}

fn reply(id: u16, name: &str, answers: &[(u16, &[u8])]) -> Vec<u8> {
    let mut m = build_dns_query(name, id);
    m[2] = 0x81;
    m[7] = answers.len() as u8;
    for (rtype, data) in answers {
        m.extend_from_slice(&[0xc0, 12]);
        m.extend_from_slice(&rtype.to_be_bytes());
        m.extend_from_slice(&[0, 1, 0, 0, 0, 60]);
        m.extend_from_slice(&(data.len() as u16).to_be_bytes());
        m.extend_from_slice(data);
    }
    m
}

#[test]
fn reply_is_read_for_its_first_address() {
    let ip = Ipv4::new(10, 1, 2, 3);
    let m = reply(513, "a.bc", &[(1, &[10, 1, 2, 3])]);
    assert!(dns_readable(&m));
    assert_eq!(parse_dns_a(&m), Some((513, Some(ip))));
    let m = reply(7, "a.bc", &[(5, b"\x01x\x00"), (28, &[0; 16]), (1, &[10, 1, 2, 3]), (1, &[9; 4])]);
    assert_eq!(parse_dns_a(&m), Some((7, Some(ip))));
    let m = reply(7, "a.bc", &[(5, b"\x01x\x00")]);
    assert_eq!(parse_dns_a(&m), Some((7, None)));
    assert_eq!(parse_dns_a(&reply(9, "q", &[])), Some((9, None)));
}

#[test]
fn reply_with_a_spelled_out_name_is_read() {
    let mut m = reply(3, "a.bc", &[]);
    m[7] = 1;
    m.extend_from_slice(b"\x01a\x02bc\x00\x00\x01\x00\x01\x00\x00\x00\x3c\x00\x04\x01\x02\x03\x04");
    assert_eq!(parse_dns_a(&m), Some((3, Some(Ipv4::new(1, 2, 3, 4)))));
}

#[test]
fn any_number_of_questions_is_passed_over() {
    let tail = b"\xc0\x0c\x00\x01\x00\x01\x00\x00\x00\x3c\x00\x04\x09\x08\x07\x06";
    let mut none = vec![0, 5, 0x81, 0, 0, 0, 0, 1, 0, 0, 0, 0];
    none.extend_from_slice(tail);
    assert_eq!(parse_dns_a(&none), Some((5, Some(Ipv4::new(9, 8, 7, 6)))));
    let mut three = vec![0, 6, 0x81, 0, 0, 3, 0, 1, 0, 0, 0, 0];
    three.extend_from_slice(b"\x01a\x00\x00\x01\x00\x01\x00\x00\x02\x00\x01\x02bc\x01d\x00\x00\x01\x00\x01");
    three.extend_from_slice(tail);
    assert_eq!(parse_dns_a(&three), Some((6, Some(Ipv4::new(9, 8, 7, 6)))));
}

#[test]
fn last_answer_may_be_as_short_as_can_be() {
    let mut m = reply(3, "a", &[]);
    m[7] = 1;
    m.extend_from_slice(b"\x00\x00\x10\x00\x01\x00\x00\x00\x3c\x00\x00");
    assert!(dns_readable(&m));
    assert_eq!(parse_dns_a(&m), Some((3, None)));
}

#[test]
fn short_and_cut_replies() {
    assert!(dns_readable(&[0; 11]));
    assert_eq!(parse_dns_a(&[0; 11]), None);
    // An answer is announced and there is no room for one.
    let mut m = reply(5, "a", &[]);
    m[7] = 1;
    assert!(dns_readable(&m));
    assert_eq!(parse_dns_a(&m), Some((5, None)));
    // The name of an answer leads behind the end of the message.
    let mut m = vec![0u8; 24];
    m[7] = 1;
    m[12] = 50;
    assert!(!dns_readable(&m));
}

#[test]
fn query_is_read_with_its_id() {
    assert_eq!(parse_dns_a(&build_dns_query("host.example", 0xabcd)), Some((0xabcd, None)));
}

#[test]
fn ipv4_notation() {
    assert_eq!(parse_ipv4(b"10.0.0.2"), Some(Ipv4::new(10, 0, 0, 2)));
    assert_eq!(parse_ipv4(b"255.255.255.255"), Some(Ipv4::new(255, 255, 255, 255)));
    assert_eq!(parse_ipv4(b"0.0.0.0"), Some(Ipv4::new(0, 0, 0, 0)));
    let bad: Vec<&[u8]> = vec![
        b"", b"1.2.3", b"1.2.3.4.5", b"256.1.1.1", b"01.2.3.4", b"1.2.3.4 ", b" 1.2.3.4", b"1..2.3", b"a.b.c.d",
        b"1.2.3.+4", b"1.2.3.0004", b"1,2,3,4",
    ];
    for text in bad {
        assert_eq!(parse_ipv4(text), None);
    }
}

#[test]
fn assignable_addresses() {
    assert!(Ipv4::new(10, 0, 0, 2).is_assignable());
    assert!(!Ipv4::new(255, 255, 255, 255).is_assignable());
    assert!(!Ipv4::new(224, 0, 0, 1).is_assignable());
}

#[test]
fn text_helpers() {
    assert_eq!(find_from(b"a/b/c", 0, b'/'), 1);
    assert_eq!(find_from(b"a/b/c", 2, b'/'), 3);
    assert_eq!(find_from(b"abc", 1, b'/'), 3);
    for text in ["0", "24", "255", "256", "", "+7", "-1", "007", " 1", "1 ", "+"] {
        assert_eq!(parse_u8(text.as_bytes(), 0, text.len()), text.parse::<u8>().ok(), "{text}");
    }
    assert!(contains(b"you were logout by", b"logout"));
    assert!(contains(b"logout", b"logout"));
    assert!(contains(b"x", b""));
    assert!(!contains(b"logou", b"logout"));
    assert!(!contains(b"LOGOUT log out", b"logout"));
}
