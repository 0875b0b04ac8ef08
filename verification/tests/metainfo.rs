use oxy_torrent::metainfo::{File, Info, Torrent};
use oxy_torrent::start::start_torrent;

fn info() -> Info {
    Info {
        name: "x".to_string(),
        piece_length: 16,
        pieces: vec![],
        length: None,
        files: None,
    }
}

fn file(length: i64) -> File {
    File { length, path: vec!["f".to_string()] }
}

fn torrent(announce: &str, lists: Option<Vec<Vec<&str>>>) -> Torrent {
    Torrent {
        announce: announce.to_string(),
        announce_list: lists.map(|lists| {
            lists.iter().map(|list| list.iter().map(|url| url.to_string()).collect()).collect()
        }),
        info: info(),
    }
}

#[test]
fn length_is_the_given_one_first() {
    let mut i = info();
    assert!(i.has_length());
    assert_eq!(i.total_length(), 0);
    i.files = Some(vec![file(3), file(4), file(5)]);
    assert!(i.has_length());
    assert_eq!(i.total_length(), 12);
    i.length = Some(100);
    assert!(i.has_length());
    assert_eq!(i.total_length(), 100);
    i.files = Some(vec![]);
    i.length = None;
    assert_eq!(i.total_length(), 0);
}

#[test]
fn negative_length_is_read_as_unsigned() {
    let mut i = info();
    i.length = Some(-1);
    assert_eq!(i.total_length(), u64::MAX);
    i.length = Some(i64::MIN);
    assert_eq!(i.total_length(), 1 << 63);
    i.length = None;
    i.files = Some(vec![file(5), file(-7)]);
    assert_eq!(i.total_length(), (-2i64) as u64);
}

#[test]
fn lengths_that_cannot_be_summed_up_are_recognised() {
    let mut i = info();
    i.files = Some(vec![file(i64::MAX), file(1)]);
    assert!(!i.has_length());
    i.files = Some(vec![file(i64::MAX), file(1), file(-1)]);
    assert!(!i.has_length());
    i.files = Some(vec![file(i64::MAX), file(-1), file(1)]);
    assert!(i.has_length());
    assert_eq!(i.total_length(), i64::MAX as u64);
    i.files = Some(vec![file(i64::MIN), file(-1)]);
    assert!(!i.has_length());
    i.length = Some(7);
    assert!(i.has_length());
    assert_eq!(i.total_length(), 7);
}

#[test]
fn digests_are_cut_into_twenties() {
    let mut i = info();
    assert!(i.piece_hashes().is_empty());
    i.pieces = (0..59).collect();
    let hashes = i.piece_hashes();
    assert_eq!(hashes.len(), 2);
    assert_eq!(hashes[0].to_vec(), (0..20).collect::<Vec<u8>>());
    assert_eq!(hashes[1].to_vec(), (20..40).collect::<Vec<u8>>());
    i.pieces = (0..60).collect();
    assert_eq!(i.piece_hashes().len(), 3);
}

#[test]
fn trackers_come_in_order_without_equal_neighbours() {
    assert_eq!(torrent("a", None).trackers(), vec!["a"]);
    assert_eq!(torrent("a", Some(vec![])).trackers(), vec!["a"]);
    let t = torrent("a", Some(vec![vec!["a", "b"], vec![], vec!["b", "c", "a"], vec!["a"]]));
    assert_eq!(t.trackers(), vec!["a", "b", "c", "a"]);
    let t = torrent("a", Some(vec![vec!["a"], vec!["a", "a"]]));
    assert_eq!(t.trackers(), vec!["a"]);
}

#[test]
fn torrent_is_settled_before_its_file_is_looked_at() {
    let mut t = torrent("udp://t", Some(vec![vec!["udp://t", "http://u"]]));
    t.info.name = "disk.iso".to_string();
    t.info.piece_length = 262144;
    t.info.length = Some(300000);
    t.info.pieces = vec![7; 40];
    let plan = start_torrent(&t, b"hello world", "/data");
    assert_eq!(
        plan.info_hash,
        [
            0x2a, 0xae, 0x6c, 0x35, 0xc9, 0x4f, 0xcf, 0xb4, 0x15, 0xdb, 0xe9, 0x5f, 0x40, 0x8b,
            0x9c, 0xe9, 0x1e, 0xe8, 0x46, 0xed
        ]
    );
    assert_eq!(plan.file_name, "disk.iso");
    assert_eq!(plan.save_path, "/data/disk.iso");
    assert_eq!(plan.session_path, "session/disk.iso.torrent");
    assert_eq!(plan.total_size, 300000);
    assert_eq!(plan.piece_length, 262144);
    assert_eq!(plan.hashes, vec![[7u8; 20], [7u8; 20]]);
    assert_eq!(plan.trackers, vec!["udp://t", "http://u"]);
}

#[test]
fn negative_piece_length_is_cut_to_an_address() {
    let mut t = torrent("a", None);
    t.info.piece_length = -1;
    assert_eq!(start_torrent(&t, b"", "d").piece_length, usize::MAX);
    t.info.piece_length = i64::MIN;
    assert_eq!(start_torrent(&t, b"", "d").piece_length, i64::MIN as usize);
}
