//! The SOCKS5 handshake, streams, and the HTTP exchange.
use corplink_tunnel::http::{first_line, get_request, status_line};
use corplink_tunnel::ipv4::Ipv4;
use corplink_tunnel::socks5::{connect_reply, literal_address, Action, Handshake, Phase, Refusal, Target};
use corplink_tunnel::stream::StreamReader;

enum Ended {
    Unfinished,
    Refused(Refusal),
    Connect(String, u16, usize),
}

fn serve(input: &[u8]) -> (Vec<u8>, Ended) {
    let mut h = Handshake::new();
    let mut at = 0;
    let mut written = Vec::new();
    loop {
        let n = h.wants();
        if h.phase == Phase::Over || at + n > input.len() {
            return (written, Ended::Unfinished);
        }
        let action = h.feed(&input[at..at + n]);
        at += n;
        match action {
            Action::Read => {}
            Action::Reply(bytes) => written.extend_from_slice(&bytes),
            Action::Refuse(bytes, why) => {
                written.extend_from_slice(&bytes);
                return (written, Ended::Refused(why));
            }
            Action::Connect(Target::Ip(ip), port) => {
                return (written, Ended::Connect(format!("{}.{}.{}.{}", ip.a, ip.b, ip.c, ip.d), port, at));
            }
            Action::Connect(Target::Name(name), port) => return (written, Ended::Connect(name, port, at)),
        }
    }
}

#[test]
fn client_connects_to_an_address() {
    let (written, end) = serve(&[5, 1, 0, 5, 1, 0, 1, 10, 0, 0, 9, 0x01, 0xbb, 77]);
    assert_eq!(written, vec![5, 0]);
    assert!(matches!(end, Ended::Connect(ip, 443, 13) if ip == "10.0.0.9"));
    // No method at all, and odd version and reserved bytes in the request.
    let (written, end) = serve(&[5, 0, 99, 1, 98, 1, 1, 2, 3, 4, 0, 80]);
    assert_eq!(written, vec![5, 0]);
    assert!(matches!(end, Ended::Connect(ip, 80, 12) if ip == "1.2.3.4"));
}

#[test]
fn client_connects_to_a_name() {
    let mut input = vec![5, 2, 0, 2, 5, 1, 0, 3, 12];
    input.extend_from_slice(b"host.example");
    input.extend_from_slice(&[0x1f, 0x90]);
    let (written, end) = serve(&input);
    assert_eq!(written, vec![5, 0]);
    assert!(matches!(end, Ended::Connect(name, 8080, _) if name == "host.example"));
    let (_, end) = serve(&[5, 0, 5, 1, 0, 3, 0, 0, 1]);
    assert!(matches!(end, Ended::Connect(name, 1, 9) if name.is_empty()));
}

#[test]
fn name_that_is_not_utf8_is_patched() {
    let (_, end) = serve(&[5, 0, 5, 1, 0, 3, 3, b'a', 0xff, b'b', 0, 1]);
    assert!(matches!(end, Ended::Connect(name, 1, _) if name == "a\u{fffd}b"));
    let (_, end) = serve(&[5, 0, 5, 1, 0, 3, 3, 0xe4, 0xb8, 0xad, 0, 1]);
    assert!(matches!(end, Ended::Connect(name, 1, _) if name == "\u{4e2d}"));
}

#[test]
fn refused_clients_are_answered() {
    let (written, end) = serve(&[4, 1, 0]);
    assert!(written.is_empty());
    assert!(matches!(end, Ended::Refused(Refusal::NotSocks5)));
    let (written, end) = serve(&[5, 1, 0, 5, 2, 0, 1]);
    assert_eq!(written, vec![5, 0, 5, 7, 0, 1, 0, 0, 0, 0, 0, 0]);
    assert!(matches!(end, Ended::Refused(Refusal::OnlyConnect)));
    let (written, end) = serve(&[5, 1, 0, 5, 1, 0, 4]);
    assert_eq!(written, vec![5, 0, 5, 8, 0, 1, 0, 0, 0, 0, 0, 0]);
    assert!(matches!(end, Ended::Refused(Refusal::BadAddressType)));
    let (written, end) = serve(&[5, 1, 0, 5, 1]);
    assert_eq!(written, vec![5, 0]);
    assert!(matches!(end, Ended::Unfinished));
}

#[test]
fn outcome_of_a_connection_is_told() {
    assert_eq!(connect_reply(true), vec![5, 0, 0, 1, 0, 0, 0, 0, 0, 0]);
    assert_eq!(connect_reply(false), vec![5, 4, 0, 1, 0, 0, 0, 0, 0, 0]);
}

#[test]
fn finished_handshake_asks_for_nothing() {
    let mut h = Handshake::new();
    assert!(matches!(h.feed(&[1, 1]), Action::Refuse(_, _)));
    assert_eq!(h.wants(), 0);
    assert!(matches!(h.feed(&[]), Action::Read));
}

#[test]
fn literal_hosts_need_no_resolution() {
    assert_eq!(literal_address("10.1.2.3"), Some(Ipv4::new(10, 1, 2, 3)));
    assert_eq!(literal_address("host.example"), None);
    assert_eq!(literal_address("1.2.3"), None);
}

#[test]
fn stream_hands_out_every_byte_in_order() {
    let pieces: Vec<Vec<u8>> = vec![vec![1, 2, 3, 4, 5], vec![], vec![6], vec![7, 8, 9, 10]];
    let rooms = [2usize, 0, 2, 9, 9, 9, 3, 3, 3, 3];
    let mut reader = StreamReader::new();
    let mut next = 0;
    let mut read = Vec::new();
    for room in rooms {
        let bytes = match reader.ready(room) {
            Some(bytes) => bytes,
            None if next < pieces.len() => {
                next += 1;
                reader.arrived(pieces[next - 1].clone(), room)
            }
            None => {
                reader.ended();
                Vec::new()
            }
        };
        assert!(bytes.len() <= room);
        read.extend_from_slice(&bytes);
    }
    assert_eq!(read, (1..=10).collect::<Vec<u8>>());
    assert!(reader.eof);
    assert_eq!(reader.ready(5), Some(Vec::new()));
}

#[test]
fn leftover_comes_before_the_end() {
    let mut reader = StreamReader::new();
    assert_eq!(reader.ready(4), None);
    assert_eq!(reader.arrived(vec![1, 2, 3], 2), vec![1, 2]);
    reader.ended();
    assert_eq!(reader.ready(4), Some(vec![3]));
    assert_eq!(reader.ready(4), Some(vec![]));
}

#[test]
fn http_request_and_status_line() {
    assert_eq!(
        get_request("/x", "host.example"),
        "GET /x HTTP/1.1\r\nHost: host.example\r\nConnection: close\r\n\r\n"
    );
    assert_eq!(status_line(b"HTTP/1.1 200 OK\r\nServer: x\r\n\r\nbody"), "HTTP/1.1 200 OK");
    assert_eq!(status_line(b"H\xff\r\n"), "H\u{fffd}");
    assert_eq!(status_line(b""), "");
}

#[test]
fn first_line_agrees_with_std() {
    for text in ["", "a", "a\nb", "a\r\nb", "\n", "\r\n", "a\r", "a\rb\n", "\r\r\n", "\u{e9}\r\nx"] {
        assert_eq!(first_line(text), text.lines().next().unwrap_or(""));
    }
}
