use oxy_torrent::pieces::{
    all_have_place, has_place, nothing_found, piece_span, PieceScan, Span,
};
use sha1::{Digest, Sha1};

fn digest(data: &[u8]) -> [u8; 20] {
    Sha1::digest(data).into()
}

#[test]
fn last_piece_takes_the_rest() {
    assert_eq!(piece_span(10, 25, 3, 0), Span { offset: 0, len: 10 });
    assert_eq!(piece_span(10, 25, 3, 1), Span { offset: 10, len: 10 });
    assert_eq!(piece_span(10, 25, 3, 2), Span { offset: 20, len: 5 });
    assert_eq!(piece_span(10, 30, 3, 2), Span { offset: 20, len: 10 });
    assert_eq!(piece_span(10, 20, 3, 2), Span { offset: 20, len: 0 });
    assert_eq!(piece_span(10, 99, 1, 0), Span { offset: 0, len: 99 });
}

#[test]
fn pieces_tile_the_file() {
    let (piece_length, total, count) = (7usize, 40u64, 6usize);
    assert!(all_have_place(piece_length, total, count));
    let mut at = 0;
    for i in 0..count {
        let span = piece_span(piece_length, total, count, i);
        assert_eq!(span.offset, at);
        at += span.len;
    }
    assert_eq!(at as u64, total);
}

#[test]
fn pieces_without_a_place_are_recognised() {
    assert!(all_have_place(10, 25, 0));
    assert!(all_have_place(usize::MAX, 25, 1));
    assert!(!all_have_place(10, 19, 3));
    assert!(all_have_place(10, 20, 3));
    assert!(!all_have_place(usize::MAX, u64::MAX, 3));
    assert!(has_place(10, 0, 3, 0));
    assert!(has_place(10, 0, 3, 1));
    assert!(!has_place(10, 0, 3, 2));
    assert!(!has_place(usize::MAX, 0, 4, 2));
}

#[test]
fn missing_file_leaves_every_piece() {
    assert_eq!(nothing_found(0), (vec![], 0));
    assert_eq!(nothing_found(3), (vec![0, 1, 2], 0));
}

#[test]
fn scan_finds_what_is_missing() {
    let contents: Vec<u8> = (0..25).collect();
    let hashes = vec![digest(&contents[0..10]), digest(&contents[10..20]), digest(&contents[20..])];
    let mut scan = PieceScan::new(10, 25, &hashes);
    assert_eq!(scan.next_read(), Some(Span { offset: 0, len: 10 }));
    scan.record(Some(&contents[0..10]));
    assert_eq!(scan.next_read(), Some(Span { offset: 10, len: 10 }));
    scan.record(Some(&[0u8; 10]));
    assert_eq!(scan.next_read(), Some(Span { offset: 20, len: 5 }));
    scan.record(None);
    assert_eq!(scan.next_read(), None);
    assert_eq!(scan.finish(), (vec![1, 2], 1));
}

#[test]
fn complete_file_leaves_nothing() {
    let contents: Vec<u8> = (0..25).collect();
    let hashes = vec![digest(&contents[0..10]), digest(&contents[10..20]), digest(&contents[20..])];
    let mut scan = PieceScan::new(10, 25, &hashes);
    while let Some(span) = scan.next_read() {
        scan.record(Some(&contents[span.offset..span.offset + span.len]));
    }
    assert_eq!(scan.finish(), (vec![], 3));
}

#[test]
fn swapped_pieces_are_not_taken_for_each_other() {
    let hashes = vec![digest(b"aa"), digest(b"bb")];
    let mut scan = PieceScan::new(2, 4, &hashes);
    scan.record(Some(b"bb"));
    scan.record(Some(b"bb"));
    assert_eq!(scan.finish(), (vec![0], 1));
}

#[test]
fn scan_without_pieces_is_over_at_once() {
    let hashes = vec![];
    let scan = PieceScan::new(10, 25, &hashes);
    assert_eq!(scan.next_read(), None);
    assert_eq!(scan.finish(), (vec![], 0));
}

#[test]
fn saved_piece_is_found_again() {
    let contents: Vec<u8> = (0..25).collect();
    let hashes = vec![digest(&contents[0..10]), digest(&contents[10..20]), digest(&contents[20..])];
    let mut file = vec![0u8; 25];
    file[..10].copy_from_slice(&contents[..10]);
    let missing = |file: &[u8]| -> (Vec<usize>, usize) {
        let mut scan = PieceScan::new(10, 25, &hashes);
        while let Some(span) = scan.next_read() {
            scan.record(Some(&file[span.offset..span.offset + span.len]));
        }
        scan.finish()
    };
    assert_eq!(missing(&file), (vec![1, 2], 1));
    let span = piece_span(10, 25, 3, 2);
    file[span.offset..span.offset + span.len].copy_from_slice(&contents[20..]);
    assert_eq!(missing(&file), (vec![1], 2));
}
