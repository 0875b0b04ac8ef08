use oxy_torrent::bytes::{
    push_be16, push_be32, push_be64, push_bytes, read_be16, read_be32, same_bytes,
};
use oxy_torrent::paths::{save_path, session_path};
use oxy_torrent::text::{decimal_string, remove_all, starts_with};
use oxy_torrent::wire::{handshake, interested, push_ascii, push_peer_id, request, HANDSHAKE_LEN};

#[test]
fn numbers_are_written_big_endian() {
    let mut buf = vec![9];
    push_be16(&mut buf, 0x0102);
    push_be32(&mut buf, 0x03040506);
    push_be64(&mut buf, 0x0708090a0b0c0d0e);
    push_bytes(&mut buf, &[15, 16]);
    assert_eq!(buf, vec![9, 1, 2, 3, 4, 5, 6, 7, 8, 9, 10, 11, 12, 13, 14, 15, 16]);
}

#[test]
fn written_numbers_read_back() {
    for x in [0u32, 1, 255, 256, 65535, 65536, 0x7fff_ffff, 0x8000_0000, u32::MAX] {
        let mut buf = vec![7];
        push_be32(&mut buf, x);
        assert_eq!(read_be32(&buf, 1), x);
        assert_eq!(buf[1..], x.to_be_bytes());
    }
    for x in [0u16, 1, 255, 256, 6881, u16::MAX] {
        let mut buf = vec![];
        push_be16(&mut buf, x);
        assert_eq!(read_be16(&buf, 0), x);
        assert_eq!(buf, x.to_be_bytes());
    }
    for x in [0u64, 0x41727101980, u64::MAX] {
        let mut buf = vec![];
        push_be64(&mut buf, x);
        assert_eq!(buf, x.to_be_bytes());
    }
}

#[test]
fn byte_strings_are_compared_whole() {
    assert!(same_bytes(&[], &[]));
    assert!(same_bytes(&[1, 2], &[1, 2]));
    assert!(!same_bytes(&[1, 2], &[1, 3]));
    assert!(!same_bytes(&[1, 2], &[1, 2, 3]));
    assert!(!same_bytes(&[1, 2], &[]));
}

#[test]
fn numbers_are_written_in_decimal() {
    for n in [0u64, 1, 9, 10, 11, 99, 100, 1048576, u32::MAX as u64, u64::MAX] {
        assert_eq!(decimal_string(n), format!("{}", n));
    }
}

#[test]
fn occurrences_are_taken_out_from_left_to_right() {
    let texts = [
        "",
        "udp://",
        "udp://tracker.example.org:1337/announce",
        "udp://udp://a/announce/announce",
        "aaaaa",
        "udp:udp:////",
        "h\u{e9}llo udp:// w\u{f6}rld \u{1f980}",
    ];
    for text in texts {
        for pattern in ["udp://", "/announce", "aa", "\u{1f980}", "o"] {
            assert_eq!(remove_all(text, pattern), text.replace(pattern, ""));
        }
    }
    assert_eq!(remove_all("aaaaa", "aa"), "a");
    assert_eq!(remove_all("udp:udp:////", "udp://"), "udp://");
}

#[test]
fn prefixes_are_recognised() {
    assert!(starts_with("udp://x", "udp://"));
    assert!(starts_with("udp://", "udp://"));
    assert!(!starts_with("udp:/", "udp://"));
    assert!(!starts_with("http://udp://", "udp://"));
    assert!(!starts_with("UDP://x", "udp://"));
    assert!(starts_with("x", ""));
    assert!(!starts_with("", "x"));
}

#[test]
fn files_have_their_names() {
    assert_eq!(save_path("downloads", "a b.iso"), "downloads/a b.iso");
    assert_eq!(save_path("", "x"), "/x");
    assert_eq!(session_path("a b.iso"), "session/a b.iso.torrent");
    assert_ne!(session_path("a"), session_path("b"));
}

#[test]
fn greeting_carries_the_torrent() {
    let hash = [0xabu8; 20];
    let message = handshake(&hash);
    assert_eq!(message.len(), HANDSHAKE_LEN);
    assert_eq!(message.len(), 68);
    assert_eq!(message[0], 19);
    assert_eq!(&message[1..20], b"BitTorrent protocol");
    assert_eq!(&message[20..28], &[0u8; 8]);
    assert_eq!(&message[28..48], &hash);
    assert_eq!(&message[48..], b"-RT0001-123456789012");
}

#[test]
fn messages_have_their_bytes() {
    assert_eq!(interested(), vec![0, 0, 0, 1, 2]);
    assert_eq!(
        request(1, 0x4000, 0x3fff),
        vec![0, 0, 0, 13, 6, 0, 0, 0, 1, 0, 0, 0x40, 0, 0, 0, 0x3f, 0xff]
    );
    let mut buf = vec![1];
    push_ascii(&mut buf, "ab");
    push_peer_id(&mut buf);
    assert_eq!(buf, b"\x01ab-RT0001-123456789012");
}
