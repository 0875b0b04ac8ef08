use oxy_torrent::manager::{
    to_signed_id, to_unsigned_id, DownloadManager, SpeedSample, SpeedUnit, MEGABYTE, TICK,
};
use oxy_torrent::start::TorrentPlan;
use std::time::Duration;

fn plan() -> TorrentPlan {
    TorrentPlan {
        info_hash: [1; 20],
        file_name: "disk.iso".to_string(),
        save_path: "d/disk.iso".to_string(),
        session_path: "session/disk.iso.torrent".to_string(),
        total_size: 35,
        piece_length: 10,
        hashes: vec![[2; 20], [3; 20], [4; 20], [5; 20]],
        trackers: vec![],
    }
}

fn manager() -> DownloadManager {
    DownloadManager::with_id(&plan(), 7, vec![1, 3], 2, 1000)
}

#[test]
fn download_starts_with_what_is_there() {
    let m = manager();
    assert_eq!(m.id, 7);
    assert_eq!(m.info_hash, [1; 20]);
    assert_eq!(m.file_name, "disk.iso");
    assert_eq!(m.save_path, "d/disk.iso");
    assert_eq!(m.pieces_todo, vec![1, 3]);
    assert_eq!(m.total_pieces, 4);
    assert_eq!(m.piece_length, 10);
    assert_eq!(m.total_size, 35);
    assert_eq!(m.finished_count, 2);
    assert_eq!(m.bytes_downloaded, 20);
    assert_eq!(m.current_speed, 0);
    assert_eq!(m.last_tick_bytes, 0);
    assert_eq!(m.last_tick_time, 1000);
    assert_eq!(m.peer_count, 0);
    assert_eq!(m.hashes, plan().hashes);
}

#[test]
fn numbers_are_drawn_at_random() {
    let ids: Vec<u32> = (0..8).map(|_| DownloadManager::new(&plan(), vec![], 4, 0).id).collect();
    assert!(ids.iter().any(|id| *id != ids[0]));
}

#[test]
fn speed_is_updated_once_a_second() {
    let mut m = manager();
    m.count_bytes(3000);
    assert_eq!(m.speed_sample(1000 + TICK - 1), None);
    m.update_speed(1000 + TICK - 1, 55);
    assert_eq!((m.current_speed, m.last_tick_bytes, m.last_tick_time), (0, 0, 1000));

    let sample = m.speed_sample(1000 + TICK);
    assert_eq!(sample, Some(SpeedSample { bytes: 3020, elapsed: TICK }));
    m.update_speed(1000 + TICK, 3020);
    assert_eq!(m.current_speed, 3020);
    assert_eq!(m.last_tick_bytes, 3020);
    assert_eq!(m.last_tick_time, 1000 + TICK);
    assert_eq!(m.speed_sample(1000 + TICK), None);
    assert_eq!(m.bytes_downloaded, 3020);
}

#[test]
fn clock_that_runs_back_ends_no_tick() {
    let mut m = manager();
    m.last_tick_time = u64::MAX;
    assert_eq!(m.speed_sample(5), None);
    m.update_speed(5, 9);
    assert_eq!(m.current_speed, 0);
}

#[test]
fn bytes_never_count_negative() {
    let mut m = manager();
    m.last_tick_bytes = 50;
    assert_eq!(m.speed_sample(1000 + TICK), Some(SpeedSample { bytes: 0, elapsed: TICK }));
}

#[test]
fn tick_is_a_second_in_single_precision() {
    assert!(Duration::from_nanos(TICK).as_secs_f32() >= 1.0);
    assert!(Duration::from_nanos(TICK - 1).as_secs_f32() < 1.0);
    assert!(Duration::from_nanos(999_999_999).as_secs_f32() >= 1.0);
    assert!(Duration::from_nanos(1_000_000_001).as_secs_f32() >= 1.0);
}

#[test]
fn line_shows_the_download() {
    let mut m = manager();
    m.current_speed = MEGABYTE;
    m.peer_count = 12;
    let line = m.get_ui_data();
    assert_eq!(line.id, 7);
    assert_eq!(line.name, "disk.iso");
    assert_eq!((line.finished, line.total), (2, 4));
    assert_eq!(line.speed, 1048576);
    assert_eq!(line.unit, SpeedUnit::Kilobytes);
    assert_eq!(line.peers, "12");
    assert_eq!(line.status, "Downloading");
    m.current_speed = MEGABYTE + 1;
    assert_eq!(m.get_ui_data().unit, SpeedUnit::Megabytes);
}

#[test]
fn finished_download_has_no_speed() {
    let mut m = manager();
    m.current_speed = 2 * MEGABYTE;
    assert!(!m.is_done());
    m.finish_piece();
    m.finish_piece();
    assert!(m.is_done());
    let line = m.get_ui_data();
    assert_eq!((line.speed, line.unit), (0, SpeedUnit::Kilobytes));
    assert_eq!(line.status, "Ready");
}

#[test]
fn download_without_pieces_is_ready() {
    let mut p = plan();
    p.hashes = vec![];
    let m = DownloadManager::with_id(&p, 0, vec![], 0, 0);
    assert!(m.is_done());
    assert_eq!(m.get_ui_data().status, "Ready");
}

#[test]
fn shown_number_leads_back() {
    for id in [0u32, 1, 0x7fff_ffff, 0x8000_0000, 0x8000_0001, u32::MAX] {
        assert_eq!(to_signed_id(id), id as i32);
        assert_eq!(to_unsigned_id(to_signed_id(id)), id);
    }
    assert_eq!(to_unsigned_id(-1), u32::MAX);
    let mut p = manager();
    p.id = u32::MAX;
    assert_eq!(p.get_ui_data().id, -1);
}

#[test]
fn what_is_left_counts_full_pieces() {
    let mut m = manager();
    assert!(m.can_tell_left());
    assert_eq!(m.left(), 15);
    m.finish_piece();
    assert_eq!(m.left(), 5);
    m.finish_piece();
    assert!(!m.can_tell_left());
    m.total_size = 40;
    assert!(m.can_tell_left());
    assert_eq!(m.left(), 0);
    m.piece_length = usize::MAX;
    assert!(!m.can_tell_left());
}

#[test]
fn pieces_are_taken_from_the_end_and_put_back() {
    let mut m = manager();
    assert_eq!(m.take_piece(), Some(3));
    assert_eq!(m.pieces_todo, vec![1]);
    m.return_piece(3);
    assert_eq!(m.pieces_todo, vec![1, 3]);
    assert_eq!(m.take_piece(), Some(3));
    assert_eq!(m.take_piece(), Some(1));
    assert_eq!(m.take_piece(), None);
    assert_eq!(m.pieces_todo, vec![]);
    assert_eq!(m.finished_count, 2);
}

#[test]
fn peers_are_counted_in_and_out() {
    let mut m = manager();
    m.peer_joined();
    m.peer_joined();
    assert_eq!(m.peer_count, 2);
    m.peer_left();
    assert_eq!(m.peer_count, 1);
}
