use oxy_torrent::tracker::{
    announce_to, decode_peers, tracker_host, tracker_request, Announce, AnnounceError, PeerAddr,
    TrackerResponse, UdpAnnounce,
};

const HASH: [u8; 20] = [
    0x12, 0x34, 0x56, 0x78, 0x9a, 0xbc, 0xde, 0xf1, 0x23, 0x45, 0x67, 0x89, 0xab, 0xcd, 0xef, 0x12,
    0x34, 0x56, 0x78, 0x9a,
];

fn udp() -> UdpAnnounce {
    UdpAnnounce::with_transaction("udp://t.org:80/announce", &HASH, 0x0102030405060708, 0xdeadbeef)
}

#[test]
fn first_packet_asks_for_a_connection() {
    assert_eq!(
        udp().connect_packet(),
        vec![0, 0, 4, 0x17, 0x27, 0x10, 0x19, 0x80, 0, 0, 0, 0, 0xde, 0xad, 0xbe, 0xef]
    );
    assert_eq!(udp().host, "t.org:80");
}

#[test]
fn second_packet_announces() {
    let reply = [0, 0, 0, 0, 9, 9, 9, 9, 21, 22, 23, 24, 25, 26, 27, 28];
    let mut expected = vec![21, 22, 23, 24, 25, 26, 27, 28, 0, 0, 0, 1, 0xde, 0xad, 0xbe, 0xef];
    expected.extend_from_slice(&HASH);
    expected.extend_from_slice(b"-RT0001-123456789012");
    expected.extend_from_slice(&[0; 8]);
    expected.extend_from_slice(&[1, 2, 3, 4, 5, 6, 7, 8]);
    expected.extend_from_slice(&[0; 16]);
    expected.extend_from_slice(&[0xca, 0xfe, 0xba, 0xbe, 0xff, 0xff, 0xff, 0xff, 0x1a, 0xe1]);
    assert_eq!(expected.len(), 98);
    assert_eq!(udp().announce_with_key(&reply, 0xcafebabe), Ok(expected.clone()));

    let drawn = udp().announce_packet(&reply).unwrap();
    assert_eq!(drawn[..88], expected[..88]);
    assert_eq!(drawn[92..], expected[92..]);
    let longer = [reply.to_vec(), vec![1, 2, 3]].concat();
    assert_eq!(udp().announce_with_key(&longer, 0xcafebabe), Ok(expected));
}

#[test]
fn keys_and_transactions_are_drawn_at_random() {
    let keys: Vec<Vec<u8>> =
        (0..8).map(|_| udp().announce_packet(&[0; 16]).unwrap()[88..92].to_vec()).collect();
    assert!(keys.iter().any(|key| *key != keys[0]));
    let numbers: Vec<u32> =
        (0..8).map(|_| UdpAnnounce::new("udp://t", &HASH, 0).transaction).collect();
    assert!(numbers.iter().any(|n| *n != numbers[0]));
}

#[test]
fn short_reply_is_an_error() {
    assert_eq!(udp().announce_packet(&[0; 15]), Err(AnnounceError::ShortReply));
    assert_eq!(udp().announce_packet(&[]), Err(AnnounceError::ShortReply));
    assert_eq!(udp().announce_with_key(&[0; 15], 1), Err(AnnounceError::ShortReply));
    assert_eq!(AnnounceError::ShortReply.message(), "UDP fail");
}

#[test]
fn peers_follow_the_head_of_the_reply() {
    let mut reply = vec![7; 20];
    assert_eq!(udp().peers(&reply), vec![]);
    assert_eq!(udp().peers(&[]), vec![]);
    reply.extend_from_slice(&[10, 0, 0, 1, 0x1a, 0xe1, 10, 0, 0, 2, 0xff, 0xff, 1, 2, 3]);
    assert_eq!(
        udp().peers(&reply),
        vec![
            PeerAddr { ip: [10, 0, 0, 1], port: 6881 },
            PeerAddr { ip: [10, 0, 0, 2], port: 65535 }
        ]
    );
    assert_eq!(udp().peers(&reply[..25]), vec![]);
    assert_eq!(udp().peers(&reply[..26]).len(), 1);
}

#[test]
fn listed_peers_are_read() {
    let peers: Vec<PeerAddr> =
        (0..5).map(|i| PeerAddr { ip: [i, i + 1, i + 2, i + 3], port: 1000 * i as u16 }).collect();
    let mut list = vec![];
    for peer in &peers {
        list.extend_from_slice(&peer.ip);
        list.extend_from_slice(&peer.port.to_be_bytes());
    }
    assert_eq!(decode_peers(&list), peers);
    list.extend_from_slice(&[1, 2, 3, 4, 5]);
    assert_eq!(decode_peers(&list), peers);
    assert_eq!(TrackerResponse { peers: list }.peer_addresses(), peers);
}

#[test]
fn web_address_names_the_torrent() {
    assert_eq!(
        tracker_request("http://t.org/announce", &HASH, 1234),
        "http://t.org/announce?info_hash=%124Vx%9A%BC%DE%F1%23Eg%89%AB%CD%EF%124Vx%9A\
         &peer_id=-RT0001-123456789012&port=6881&uploaded=0&downloaded=0&left=1234&compact=1"
    );
    let kept = *b"AZaz09-._~AZaz09-._~";
    assert!(tracker_request("", &kept, 0).starts_with("?info_hash=AZaz09-._~AZaz09-._~&peer_id="));
    let escaped = tracker_request("", b"/@[`{ %+:\x00\xff//////////"[..20].try_into().unwrap(), 0);
    assert!(escaped.starts_with("?info_hash=%2F%40%5B%60%7B%20%25%2B%3A%00%FF%2F%2F"));
}

#[test]
fn host_is_what_is_left_of_the_address() {
    assert_eq!(tracker_host("udp://t.org:1337/announce"), "t.org:1337");
    assert_eq!(tracker_host("udp://t.org:1337"), "t.org:1337");
    assert_eq!(tracker_host("t.org:1337/announce/announce"), "t.org:1337");
    assert_eq!(tracker_host("/annudp://ounce"), "");
}

#[test]
fn address_decides_how_to_ask() {
    match announce_to("udp://t.org:80/announce", &HASH, 5) {
        Announce::Udp(udp) => {
            assert_eq!(udp.host, "t.org:80");
            assert_eq!(udp.info_hash, HASH);
            assert_eq!(udp.left, 5);
        }
        other => panic!("{:?}", other),
    }
    match announce_to("https://t.org/announce", &HASH, 5) {
        Announce::Http(address) => {
            assert_eq!(address, tracker_request("https://t.org/announce", &HASH, 5))
        }
        other => panic!("{:?}", other),
    }
}
