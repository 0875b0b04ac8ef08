use oxy_torrent::manager::{to_signed_id, DownloadManager};
use oxy_torrent::start::TorrentPlan;
use oxy_torrent::state::{get_random_port, AppConfig, AppState, TorrentEntry};
use oxy_torrent::wire::handshake;

fn config() -> AppConfig {
    AppConfig { download_dir: "d".to_string() }
}

fn entry(id: u32, hash: u8) -> TorrentEntry<&'static str> {
    TorrentEntry {
        id,
        info_hash: [hash; 20],
        file_name: format!("f{}", id),
        save_path: format!("d/f{}", id),
        handle: "handle",
    }
}

fn ids(state: &AppState<&'static str>) -> Vec<u32> {
    state.torrents.iter().map(|t| t.id).collect()
}

#[test]
fn stored_settings_come_before_the_default() {
    assert_eq!(AppConfig::load(Some(config())).download_dir, "d");
    assert_eq!(AppConfig::load(None).download_dir, "downloads");
}

#[test]
fn ports_lie_in_their_range() {
    let ports: Vec<u16> = (0..500).map(|_| get_random_port()).collect();
    assert!(ports.iter().all(|port| *port >= 10000));
    assert!(ports.iter().any(|port| *port != ports[0]));
}

#[test]
fn state_starts_empty() {
    let mut state: AppState<u8> = AppState::new(config());
    assert!(state.torrents.is_empty());
    assert_eq!(state.download_dir, "d");
    state.set_download_dir("e".to_string());
    assert_eq!(state.download_dir, "e");
}

#[test]
fn greeting_finds_the_first_torrent_with_its_digest() {
    let mut state = AppState::new(config());
    assert_eq!(state.find_by_handshake(&handshake(&[5; 20])), None);
    state.add(entry(1, 4));
    state.add(entry(2, 5));
    state.add(entry(3, 5));
    assert_eq!(state.find_by_handshake(&handshake(&[5; 20])), Some(1));
    assert_eq!(state.find_by_handshake(&handshake(&[4; 20])), Some(0));
    assert_eq!(state.find_by_handshake(&handshake(&[6; 20])), None);
}

#[test]
fn torrent_is_removed_by_the_number_that_is_shown() {
    let mut state = AppState::new(config());
    for id in [7, u32::MAX, 9] {
        state.add(entry(id, 0));
    }
    assert!(state.remove(8).is_none());
    assert_eq!(ids(&state), vec![7, u32::MAX, 9]);
    let removed = state.remove(-1).unwrap();
    assert_eq!(removed.id, u32::MAX);
    assert_eq!(ids(&state), vec![7, 9]);
    assert_eq!(state.download_dir, "d");
}

#[test]
fn removing_undoes_adding() {
    let mut state = AppState::new(config());
    state.add(entry(1, 0));
    state.add(entry(2, 0));
    state.add(entry(0x9000_0000, 0));
    let removed = state.remove(to_signed_id(0x9000_0000)).unwrap();
    assert_eq!(removed.file_name, "f2415919104");
    assert_eq!(ids(&state), vec![1, 2]);
}

#[test]
fn entry_knows_the_files_of_its_download() {
    let plan = TorrentPlan {
        info_hash: [8; 20],
        file_name: "disk.iso".to_string(),
        save_path: "d/disk.iso".to_string(),
        session_path: "session/disk.iso.torrent".to_string(),
        total_size: 0,
        piece_length: 1,
        hashes: vec![],
        trackers: vec![],
    };
    let manager = DownloadManager::with_id(&plan, 3, vec![], 0, 0);
    let entry = TorrentEntry::new(&manager, 77u8);
    assert_eq!((entry.id, entry.info_hash, entry.handle), (3, [8; 20], 77));
    assert_eq!(entry.files(), ("d/disk.iso".to_string(), plan.session_path));
}
