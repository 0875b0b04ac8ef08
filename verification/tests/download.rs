use oxy_torrent::download::{DownloadAction, DownloadError, PieceDownload};
use sha1::{Digest, Sha1};

fn digest(data: &[u8]) -> [u8; 20] {
    Sha1::digest(data).into()
}

fn piece(len: usize) -> Vec<u8> {
    (0..len).map(|i| (i % 251) as u8).collect()
}

/// The next action, which must be to send a request; gives its piece, position and length.
fn sent(d: &mut PieceDownload) -> (u32, u32, u32) {
    match d.next_action() {
        DownloadAction::Send(m) => {
            assert_eq!(&m[..5], &[0, 0, 0, 13, 6]);
            let at = |i: usize| u32::from_be_bytes([m[i], m[i + 1], m[i + 2], m[i + 3]]);
            (at(5), at(9), at(13))
        }
        other => panic!("{:?}", other),
    }
}

/// The next action, which must be to read; gives how much.
fn awaited(d: &mut PieceDownload) -> usize {
    match d.next_action() {
        DownloadAction::Receive(n) => n,
        other => panic!("{:?}", other),
    }
}

fn complete(d: &mut PieceDownload) -> bool {
    matches!(d.next_action(), DownloadAction::Complete)
}

fn give(d: &mut PieceDownload, bytes: &[u8]) -> Result<usize, DownloadError> {
    assert_eq!(awaited(d), bytes.len());
    assert!(d.accepts(bytes));
    d.feed(bytes)
}

fn give_block(d: &mut PieceDownload, start: u32, bytes: &[u8]) {
    assert_eq!(give(d, &(9 + bytes.len() as u32).to_be_bytes()), Ok(0));
    assert_eq!(give(d, &[7]), Ok(0));
    let mut head = vec![0xee; 4];
    head.extend_from_slice(&start.to_be_bytes());
    assert_eq!(give(d, &head), Ok(0));
    assert_eq!(d.counts(), bytes.len());
    assert_eq!(give(d, bytes), Ok(bytes.len()));
}

#[test]
fn small_piece_takes_one_request() {
    let p = piece(100);
    let mut d = PieceDownload::new(3, 100);
    assert_eq!(sent(&mut d), (3, 0, 100));
    give_block(&mut d, 0, &p);
    assert!(complete(&mut d));
    assert_eq!(d.finish(&digest(&p)), Ok(p));
}

#[test]
fn requests_tile_the_piece() {
    let size = 3 * 16384 + 5;
    let mut d = PieceDownload::new(0, size);
    assert_eq!(sent(&mut d), (0, 0, 16384));
    assert_eq!(sent(&mut d), (0, 16384, 16384));
    assert_eq!(sent(&mut d), (0, 32768, 16384));
    assert_eq!(sent(&mut d), (0, 49152, 5));
    assert_eq!(awaited(&mut d), 4);
}

#[test]
fn twelve_requests_are_under_way() {
    let p = piece(14 * 16384);
    let mut d = PieceDownload::new(9, p.len());
    for k in 0..12 {
        assert_eq!(sent(&mut d), (9, k * 16384, 16384));
    }
    assert_eq!(awaited(&mut d), 4);
    give_block(&mut d, 0, &p[..16384]);
    assert_eq!(sent(&mut d), (9, 12 * 16384, 16384));
    assert_eq!(awaited(&mut d), 4);
}

#[test]
fn blocks_may_come_in_any_order() {
    let p = piece(2 * 16384 + 100);
    let mut d = PieceDownload::new(0, p.len());
    for _ in 0..3 {
        sent(&mut d);
    }
    give_block(&mut d, 32768, &p[32768..]);
    give_block(&mut d, 0, &p[..16384]);
    assert!(!complete(&mut d));
    give_block(&mut d, 16384, &p[16384..32768]);
    assert!(complete(&mut d));
    assert_eq!(d.finish(&digest(&p)), Ok(p));
}

#[test]
fn other_messages_are_passed_over() {
    let p = piece(10);
    let mut d = PieceDownload::new(0, 10);
    sent(&mut d);
    assert_eq!(give(&mut d, &[0, 0, 0, 0]), Ok(0));
    assert_eq!(give(&mut d, &[0, 0, 0, 5]), Ok(0));
    assert_eq!(give(&mut d, &[4]), Ok(0));
    assert_eq!(give(&mut d, &[1, 2, 3, 4]), Ok(0));
    assert_eq!(give(&mut d, &[0, 0, 0, 1]), Ok(0));
    assert_eq!(give(&mut d, &[1]), Ok(0));
    assert_eq!(give(&mut d, &[]), Ok(0));
    give_block(&mut d, 0, &p);
    assert!(complete(&mut d));
    assert_eq!(d.finish(&digest(&p)), Ok(p));
}

#[test]
fn choke_ends_the_fetching() {
    let mut d = PieceDownload::new(0, 10);
    sent(&mut d);
    assert_eq!(give(&mut d, &[0, 0, 0, 3]), Ok(0));
    assert_eq!(give(&mut d, &[0]), Ok(0));
    assert_eq!(give(&mut d, &[8, 9]), Err(DownloadError::Choke));
    assert_eq!(DownloadError::Choke.message(), "Choke");
}

#[test]
fn wrong_bytes_are_not_the_piece() {
    let p = piece(10);
    let mut d = PieceDownload::new(0, 10);
    sent(&mut d);
    give_block(&mut d, 0, &[0; 10]);
    assert!(complete(&mut d));
    assert_eq!(d.finish(&digest(&p)), Err(DownloadError::HashFail));
    assert_eq!(DownloadError::HashFail.message(), "Hash fail");
}

#[test]
fn digest_of_another_length_matches_nothing() {
    let p = piece(10);
    let mut d = PieceDownload::new(0, 10);
    sent(&mut d);
    give_block(&mut d, 0, &p);
    assert_eq!(d.finish(&digest(&p)[..19]), Err(DownloadError::HashFail));
}

#[test]
fn repeated_blocks_count_again() {
    let p = piece(20000);
    let mut d = PieceDownload::new(0, p.len());
    sent(&mut d);
    sent(&mut d);
    give_block(&mut d, 0, &p[..16384]);
    give_block(&mut d, 0, &p[..16384]);
    assert!(complete(&mut d));
    assert_eq!(d.finish(&digest(&p)), Err(DownloadError::HashFail));
}

#[test]
fn unasked_blocks_make_room_for_requests() {
    let p = piece(14 * 16384);
    let mut d = PieceDownload::new(0, p.len());
    for _ in 0..12 {
        sent(&mut d);
    }
    give_block(&mut d, 0, &[]);
    assert_eq!(sent(&mut d), (0, 12 * 16384, 16384));
    give_block(&mut d, 0, &[]);
    assert_eq!(sent(&mut d), (0, 13 * 16384, 16384));
    assert_eq!(awaited(&mut d), 4);
}

#[test]
fn blocks_outside_the_piece_are_recognised() {
    let mut d = PieceDownload::new(0, 10);
    sent(&mut d);
    give(&mut d, &[0, 0, 0, 13]).unwrap();
    give(&mut d, &[7]).unwrap();
    assert_eq!(awaited(&mut d), 8);
    assert!(d.accepts(&[0, 0, 0, 0, 0, 0, 0, 6]));
    assert!(!d.accepts(&[0, 0, 0, 0, 0, 0, 0, 7]));
    assert!(!d.accepts(&[0, 0, 0, 0, 255, 255, 255, 255]));
}

#[test]
fn blocks_shorter_than_their_head_are_recognised() {
    let mut d = PieceDownload::new(0, 10);
    sent(&mut d);
    give(&mut d, &[0, 0, 0, 8]).unwrap();
    give(&mut d, &[7]).unwrap();
    assert!(!d.accepts(&[0; 8]));
}

#[test]
fn empty_piece_is_complete_at_once() {
    let mut d = PieceDownload::new(0, 0);
    assert!(complete(&mut d));
    assert_eq!(d.finish(&digest(&[])), Ok(vec![]));
}

#[test]
fn sizes_that_memory_cannot_hold_are_recognised() {
    assert!(PieceDownload::can_hold(0));
    assert!(PieceDownload::can_hold(1 << 30));
    assert!(!PieceDownload::can_hold(usize::MAX));
}
