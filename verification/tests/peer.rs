use oxy_torrent::manager::DownloadManager;
use oxy_torrent::peer::{PeerAction, PeerEvent, PeerWorker, PATIENCE};
use oxy_torrent::pieces::PieceScan;
use oxy_torrent::start::TorrentPlan;
use oxy_torrent::wire::handshake;
use sha1::{Digest, Sha1};

const HASH: [u8; 20] = [9; 20];

fn contents() -> Vec<u8> {
    (0..25).collect()
}

fn manager() -> DownloadManager {
    let c = contents();
    let digest = |part: &[u8]| -> [u8; 20] { Sha1::digest(part).into() };
    let plan = TorrentPlan {
        info_hash: HASH,
        file_name: "f".to_string(),
        save_path: "d/f".to_string(),
        session_path: "session/f.torrent".to_string(),
        total_size: 25,
        piece_length: 10,
        hashes: vec![digest(&c[..10]), digest(&c[10..20]), digest(&c[20..])],
        trackers: vec![],
    };
    DownloadManager::with_id(&plan, 1, vec![0, 1, 2], 0, 0)
}

/// A worker with its download, and what it is to do next.
struct Run {
    worker: Option<PeerWorker>,
    manager: DownloadManager,
    action: PeerAction,
    now: u64,
}

impl Run {
    fn start(is_inbound: bool) -> Run {
        let (worker, action) = PeerWorker::start(&HASH, is_inbound);
        Run { worker: Some(worker), manager: manager(), action, now: 5 }
    }

    fn tell(&mut self, event: PeerEvent) {
        let worker = self.worker.take().unwrap();
        assert!(worker.accepts(&event, &self.manager));
        let (worker, action) = worker.step(event, self.now, &mut self.manager);
        self.worker = Some(worker);
        self.action = action;
    }

    fn refuses(&self, event: PeerEvent) -> bool {
        !self.worker.as_ref().unwrap().accepts(&event, &self.manager)
    }

    fn data(&mut self, bytes: &[u8]) {
        self.tell(PeerEvent::Data(bytes.to_vec()));
    }

    fn writes(&self) -> Vec<u8> {
        match &self.action {
            PeerAction::Write(bytes) => bytes.clone(),
            other => panic!("{:?}", other),
        }
    }

    fn reads(&self) -> (usize, Option<u64>) {
        match &self.action {
            PeerAction::Read { len, limit } => (*len, *limit),
            other => panic!("{:?}", other),
        }
    }

    fn stopped(&self) -> bool {
        matches!(self.action, PeerAction::Stop)
    }

    /// Brings the work to where the peer serves and the file is open.
    fn serving() -> Run {
        let mut run = Run::start(true);
        run.tell(PeerEvent::Done);
        run.data(&[0, 0, 0, 1]);
        run.data(&[1]);
        run.tell(PeerEvent::Done);
        run
    }

    /// Lets the request that is being sent pass and answers it.
    fn answer(&mut self, start: u8, bytes: &[u8]) {
        self.tell(PeerEvent::Done);
        assert_eq!(self.reads(), (4, None));
        self.data(&[0, 0, 0, 9 + bytes.len() as u8]);
        self.data(&[7]);
        self.data(&[0, 0, 0, 0, 0, 0, 0, start]);
        assert_eq!(self.reads(), (bytes.len(), None));
        self.data(bytes);
    }

    fn saves(&self) -> (usize, Vec<u8>) {
        match &self.action {
            PeerAction::Save { offset, data } => (*offset, data.clone()),
            other => panic!("{:?}", other),
        }
    }
}

#[test]
fn client_greets_first_on_its_own_connections() {
    let mut run = Run::start(false);
    assert_eq!(run.writes(), handshake(&HASH));
    run.tell(PeerEvent::Done);
    assert_eq!(run.reads(), (68, Some(5)));
    run.data(&[0; 68]);
    assert_eq!(run.writes(), vec![0, 0, 0, 1, 2]);
    run.tell(PeerEvent::Done);
    assert_eq!(run.reads(), (4, Some(5)));
}

#[test]
fn answered_connections_skip_the_greeting() {
    let run = Run::start(true);
    assert_eq!(run.writes(), vec![0, 0, 0, 1, 2]);
}

#[test]
fn greeting_that_fails_ends_the_work() {
    let mut run = Run::start(false);
    run.tell(PeerEvent::Failed);
    assert!(run.stopped());
    assert_eq!(run.manager.peer_count, 0);

    let mut run = Run::start(false);
    run.tell(PeerEvent::Done);
    run.tell(PeerEvent::TimedOut);
    assert!(run.stopped());
}

#[test]
fn greeting_that_breaks_off_is_let_pass() {
    let mut run = Run::start(false);
    run.tell(PeerEvent::Done);
    run.tell(PeerEvent::Failed);
    assert_eq!(run.writes(), vec![0, 0, 0, 1, 2]);
    run.tell(PeerEvent::Failed);
    assert_eq!(run.reads(), (4, Some(5)));
}

#[test]
fn messages_are_passed_over_until_the_peer_serves() {
    let mut run = Run::start(true);
    run.tell(PeerEvent::Done);
    run.data(&[0, 0, 0, 0]);
    assert_eq!(run.reads(), (4, Some(5)));
    run.data(&[0, 0, 0, 3]);
    assert_eq!(run.reads(), (1, None));
    run.data(&[5]);
    assert_eq!(run.reads(), (2, None));
    run.data(&[1, 1]);
    run.tell(PeerEvent::TimedOut);
    run.tell(PeerEvent::Failed);
    run.data(&[0, 0, 0, 1]);
    run.tell(PeerEvent::Failed);
    assert_eq!(run.reads(), (0, None));
    run.tell(PeerEvent::Failed);
    assert_eq!(run.reads(), (4, Some(5)));
    assert_eq!(run.manager.peer_count, 0);
    run.data(&[0, 0, 0, 1]);
    run.data(&[1]);
    assert!(matches!(&run.action, PeerAction::Open(path) if path == "d/f"));
    assert_eq!(run.manager.peer_count, 1);
}

#[test]
fn patience_lasts_fifteen_seconds() {
    let mut run = Run::start(true);
    run.tell(PeerEvent::Done);
    run.now = 5 + PATIENCE - 1;
    run.tell(PeerEvent::TimedOut);
    assert_eq!(run.reads(), (4, Some(5)));
    run.now = 5 + PATIENCE;
    run.tell(PeerEvent::TimedOut);
    assert!(run.stopped());
    assert_eq!(run.manager.peer_count, 0);
    assert_eq!(PATIENCE, 15_000_000_000);
}

#[test]
fn file_that_cannot_be_opened_ends_the_work() {
    let mut run = Run::start(true);
    run.tell(PeerEvent::Done);
    run.data(&[0, 0, 0, 1]);
    run.data(&[1]);
    assert_eq!(run.manager.peer_count, 1);
    run.tell(PeerEvent::Failed);
    assert!(run.stopped());
    assert_eq!(run.manager.peer_count, 0);
    assert_eq!(run.manager.pieces_todo, vec![0, 1, 2]);
}

#[test]
fn pieces_are_fetched_from_the_last_to_the_first() {
    let c = contents();
    let mut run = Run::serving();
    assert_eq!(run.writes(), vec![0, 0, 0, 13, 6, 0, 0, 0, 2, 0, 0, 0, 0, 0, 0, 0, 5]);
    assert_eq!(run.manager.pieces_todo, vec![0, 1]);
    run.answer(0, &c[20..]);
    assert_eq!(run.saves(), (20, c[20..].to_vec()));
    assert_eq!(run.manager.finished_count, 0);
    assert_eq!(run.manager.bytes_downloaded, 5);
    run.tell(PeerEvent::Done);
    assert_eq!(run.manager.finished_count, 1);
    assert_eq!(run.writes(), vec![0, 0, 0, 13, 6, 0, 0, 0, 1, 0, 0, 0, 0, 0, 0, 0, 10]);
    run.answer(0, &c[10..20]);
    assert_eq!(run.saves(), (10, c[10..20].to_vec()));
    run.tell(PeerEvent::Failed);
    assert_eq!(run.manager.finished_count, 2);
    run.answer(0, &c[..10]);
    assert_eq!(run.saves(), (0, c[..10].to_vec()));
    run.tell(PeerEvent::Done);
    assert!(run.stopped());
    assert!(run.manager.is_done());
    assert_eq!(run.manager.bytes_downloaded, 25);
    assert_eq!(run.manager.peer_count, 0);
    assert_eq!(run.manager.pieces_todo, vec![]);
}

#[test]
fn wrong_piece_goes_back_on_the_list() {
    let mut run = Run::serving();
    run.answer(0, &[0; 5]);
    assert!(run.stopped());
    assert_eq!(run.manager.pieces_todo, vec![0, 1, 2]);
    assert_eq!(run.manager.finished_count, 0);
    assert_eq!(run.manager.peer_count, 0);
    assert_eq!(run.manager.bytes_downloaded, 5);
}

#[test]
fn peer_that_stops_serving_gives_the_piece_back() {
    let mut run = Run::serving();
    run.tell(PeerEvent::Done);
    run.data(&[0, 0, 0, 1]);
    run.data(&[0]);
    run.data(&[]);
    assert!(run.stopped());
    assert_eq!(run.manager.pieces_todo, vec![0, 1, 2]);
    assert_eq!(run.manager.peer_count, 0);
}

#[test]
fn broken_connection_gives_the_piece_back() {
    let mut run = Run::serving();
    run.tell(PeerEvent::Failed);
    assert!(run.stopped());
    assert_eq!(run.manager.pieces_todo, vec![0, 1, 2]);

    let mut run = Run::serving();
    run.tell(PeerEvent::Done);
    run.tell(PeerEvent::Failed);
    assert!(run.stopped());
    assert_eq!(run.manager.pieces_todo, vec![0, 1, 2]);
    assert_eq!(run.manager.peer_count, 0);
}

#[test]
fn nothing_to_fetch_ends_the_work() {
    let mut run = Run::start(true);
    run.manager.pieces_todo = vec![];
    run.tell(PeerEvent::Done);
    run.data(&[0, 0, 0, 1]);
    run.data(&[1]);
    run.tell(PeerEvent::Done);
    assert!(run.stopped());
    assert_eq!(run.manager.peer_count, 0);
}

#[test]
fn two_workers_share_the_list() {
    let mut first = Run::serving();
    let mut second = Run::start(true);
    second.manager = first.manager;
    second.tell(PeerEvent::Done);
    second.data(&[0, 0, 0, 1]);
    second.data(&[1]);
    second.tell(PeerEvent::Done);
    assert_eq!(second.manager.pieces_todo, vec![0]);
    assert_eq!(second.manager.peer_count, 2);
    first.manager = second.manager;
    first.tell(PeerEvent::Failed);
    assert_eq!(first.manager.pieces_todo, vec![0, 2]);
    assert_eq!(first.manager.peer_count, 1);
}

#[test]
fn events_that_cannot_be_are_refused() {
    let mut run = Run::start(true);
    assert!(run.refuses(PeerEvent::TimedOut));
    assert!(run.refuses(PeerEvent::Data(vec![])));
    run.tell(PeerEvent::Done);
    assert!(run.refuses(PeerEvent::Done));
    assert!(run.refuses(PeerEvent::Data(vec![0; 3])));

    let mut run = Run::serving();
    run.tell(PeerEvent::Done);
    assert!(run.refuses(PeerEvent::TimedOut));
    run.data(&[0, 0, 0, 15]);
    run.data(&[7]);
    assert!(run.refuses(PeerEvent::Data(vec![0; 8])));
    run.tell(PeerEvent::Failed);
    assert!(run.refuses(PeerEvent::Done));
    assert!(run.refuses(PeerEvent::Failed));
}

#[test]
fn pieces_that_cannot_be_placed_are_refused() {
    let mut run = Run::start(true);
    run.tell(PeerEvent::Done);
    run.data(&[0, 0, 0, 1]);
    run.data(&[1]);
    run.manager.total_size = 19;
    assert!(run.refuses(PeerEvent::Done));
    run.manager.total_size = 25;
    run.manager.pieces_todo = vec![3];
    assert!(run.refuses(PeerEvent::Done));
    run.manager.pieces_todo = vec![2];
    run.manager.peer_count = 0;
    assert!(run.refuses(PeerEvent::Done));
    run.manager.peer_count = 1;
    assert!(!run.refuses(PeerEvent::Done));
}

#[test]
fn interrupted_work_loses_no_data() {
    let c = contents();
    let mut file = vec![0u8; 25];
    let write = |run: &Run, file: &mut Vec<u8>| {
        let (offset, data) = run.saves();
        file[offset..offset + data.len()].copy_from_slice(&data);
    };
    let scan = |file: &[u8]| -> (Vec<usize>, usize) {
        let hashes = manager().hashes;
        let mut scan = PieceScan::new(10, 25, &hashes);
        while let Some(span) = scan.next_read() {
            scan.record(Some(&file[span.offset..span.offset + span.len]));
        }
        scan.finish()
    };

    let mut run = Run::serving();
    run.answer(0, &c[20..]);
    write(&run, &mut file);
    run.tell(PeerEvent::Done);
    run.tell(PeerEvent::Failed);
    assert!(run.stopped());
    assert_eq!(run.manager.pieces_todo, vec![0, 1]);
    assert_eq!(scan(&file), (vec![0, 1], 1));

    let mut run = Run::start(true);
    let (todo, finished) = scan(&file);
    run.manager.pieces_todo = todo;
    run.manager.finished_count = finished;
    run.tell(PeerEvent::Done);
    run.data(&[0, 0, 0, 1]);
    run.data(&[1]);
    run.tell(PeerEvent::Done);
    run.answer(0, &c[10..20]);
    write(&run, &mut file);
    run.tell(PeerEvent::Done);
    run.answer(0, &c[..10]);
    write(&run, &mut file);
    run.tell(PeerEvent::Done);
    assert!(run.stopped());
    assert!(run.manager.is_done());
    assert_eq!(scan(&file), (vec![], 3));
    assert_eq!(file, c);
}
