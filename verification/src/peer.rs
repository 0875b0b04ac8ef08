//! The work with one peer, from the greeting to the last piece.
//!
//! A worker says what to do next and is told what came of it. It greets the peer, asks to be
//! served and waits for it; then it takes pieces off the download's list, one at a time, fetches
//! each from the peer and hands it out to be saved. A piece that could not be fetched goes back on
//! the list, and the work ends.
use crate::bytes::read_be32;
#[allow(unused_imports)]
use crate::bytes::{be32, be_value, law_be32_round_trip, lemma_be_value_bound};
use crate::download::{DownloadAction, PieceDownload};
#[allow(unused_imports)]
use crate::download::{
    assembled, law_block_message_adds_its_block, law_request_asks_for_what_follows,
    law_requests_tile_the_piece, law_steps_keep_order, lemma_assembled_len, Block, DownloadView,
    NextStep, Phase,
};
use crate::manager::DownloadManager;
#[allow(unused_imports)]
use crate::manager::ManagerView;
#[allow(unused_imports)]
use crate::outside::{hashable, sha1_of};
use crate::pieces::{has_place, piece_span};
#[allow(unused_imports)]
use crate::pieces::{
    bytes_at, laid_out, law_complete_file_is_recognised, law_saved_piece_is_found_again,
    law_scan_lists_what_is_missing, missing_pieces, piece_fits, piece_offset, piece_present,
    piece_size, reads_of, written,
};
#[allow(unused_imports)]
use crate::start::TorrentPlan;
use crate::wire::{handshake, interested, HANDSHAKE_LEN};
#[allow(unused_imports)]
use crate::wire::{
    handshake_bytes, interested_bytes, law_interested_is_framed, law_request_is_framed,
    request_bytes,
};
use vstd::prelude::*;

verus! {

/// How many seconds an answer may take before the peer serves.
pub const ANSWER_LIMIT: u64 = 5;

/// How many nanoseconds to wait for the peer to serve.
pub const PATIENCE: u64 = 15_000_000_000;

/// What is to be done next.
#[derive(Debug)]
pub enum PeerAction {
    /// Send bytes to the peer.
    Write(Vec<u8>),
    /// Read that many bytes from the peer, within that many seconds where a limit is given.
    Read { len: usize, limit: Option<u64> },
    /// Open the file of that name for writing.
    Open(String),
    /// Write bytes to the file.
    Save { offset: usize, data: Vec<u8> },
    /// Nothing: the work is over.
    Stop,
}

/// What came of it.
#[derive(Debug)]
pub enum PeerEvent {
    /// It is done.
    Done,
    /// It could not be done.
    Failed,
    /// The time for it ran out.
    TimedOut,
    /// These bytes were read.
    Data(Vec<u8>),
}

/// What is to be done next, as contracts see it.
#[verifier::ext_equal]
pub enum ActionView {
    Write(Seq<u8>),
    Read { len: int, limit: Option<u64> },
    Open(Seq<char>),
    Save { offset: int, data: Seq<u8> },
    Stop,
}

/// What came of it, as contracts see it.
#[verifier::ext_equal]
pub enum EventView {
    Done,
    Failed,
    TimedOut,
    Data(Seq<u8>),
}

impl View for PeerAction {
    type V = ActionView;

    open spec fn view(&self) -> ActionView {
        match *self {
            PeerAction::Write(bytes) => ActionView::Write(bytes@),
            PeerAction::Read { len, limit } => ActionView::Read { len: len as int, limit },
            PeerAction::Open(path) => ActionView::Open(path@),
            PeerAction::Save { offset, data } => ActionView::Save {
                offset: offset as int,
                data: data@,
            },
            PeerAction::Stop => ActionView::Stop,
        }
    }
}

impl View for PeerEvent {
    type V = EventView;

    open spec fn view(&self) -> EventView {
        match *self {
            PeerEvent::Done => EventView::Done,
            PeerEvent::Failed => EventView::Failed,
            PeerEvent::TimedOut => EventView::TimedOut,
            PeerEvent::Data(bytes) => EventView::Data(bytes@),
        }
    }
}

/// A piece in the hands of a worker, as contracts see it.
#[verifier::ext_equal]
pub struct TaskView {
    pub piece: usize,
    pub offset: int,
    pub download: DownloadView,
}

/// How far the work has come, as contracts see it. `since` is when the wait to be served began.
#[verifier::ext_equal]
pub enum WorkerView {
    /// The greeting is being sent.
    SendHandshake,
    /// The peer's greeting is awaited.
    AwaitHandshake,
    /// The wish to be served is being sent.
    SendInterested,
    /// The length of a message is awaited.
    AwaitLength { since: u64 },
    /// The kind of a message is awaited.
    AwaitId { since: u64, length: u32 },
    /// The rest of a message is being passed over.
    SkipMessage { since: u64, len: int },
    /// The file is being opened.
    Opening,
    /// A block is being asked for.
    Requesting(TaskView),
    /// Bytes are awaited.
    Receiving(TaskView),
    /// A piece is being saved.
    Saving { piece: usize },
    /// The work is over.
    Stopped,
}

/// A worker, its download and what it is to do next.
#[verifier::ext_equal]
pub struct Outcome {
    pub worker: WorkerView,
    pub manager: ManagerView,
    pub action: ActionView,
}

/// The work ends before the peer was counted.
pub open spec fn turned_away(m: ManagerView) -> Outcome {
    Outcome { worker: WorkerView::Stopped, manager: m, action: ActionView::Stop }
}

/// The work ends, and the peer is counted out.
pub open spec fn left(m: ManagerView) -> Outcome {
    Outcome { worker: WorkerView::Stopped, manager: m.without_peer(), action: ActionView::Stop }
}

/// The piece goes back on the list and the work ends.
pub open spec fn gave_up(piece: usize, m: ManagerView) -> Outcome {
    left(m.with_piece_returned(piece))
}

/// The wish to be served is sent.
pub open spec fn asked_to_be_served(m: ManagerView) -> Outcome {
    Outcome {
        worker: WorkerView::SendInterested,
        manager: m,
        action: ActionView::Write(interested_bytes()),
    }
}

/// The wait to be served goes on for another message, or has lasted long enough.
pub open spec fn waited(since: u64, now: u64, m: ManagerView) -> Outcome {
    if now - since < PATIENCE {
        Outcome {
            worker: WorkerView::AwaitLength { since },
            manager: m,
            action: ActionView::Read { len: 4, limit: Some(ANSWER_LIMIT) },
        }
    } else {
        turned_away(m)
    }
}

/// The fetching of a piece goes on: by a request, by a read, or, when as many bytes came in as the
/// piece has, by saving it, if it has the right digest.
pub open spec fn advanced(task: TaskView, m: ManagerView) -> Outcome {
    match task.download.next_step() {
        NextStep::Send(request) => Outcome {
            worker: WorkerView::Requesting(
                TaskView { download: task.download.stepped(), ..task },
            ),
            manager: m,
            action: ActionView::Write(
                request_bytes(
                    task.download.index,
                    (request.begin % 0x1_0000_0000) as u32,
                    request.len as u32,
                ),
            ),
        },
        NextStep::Receive(n) => Outcome {
            worker: WorkerView::Receiving(task),
            manager: m,
            action: ActionView::Read { len: n, limit: None },
        },
        NextStep::Complete => if sha1_of(task.download.content())
            == m.hashes[task.piece as int]@ {
            Outcome {
                worker: WorkerView::Saving { piece: task.piece },
                manager: m,
                action: ActionView::Save { offset: task.offset, data: task.download.content() },
            }
        } else {
            gave_up(task.piece, m)
        },
    }
}

/// The task of fetching a piece of a download.
pub open spec fn task_for(piece: usize, m: ManagerView) -> TaskView {
    TaskView {
        piece,
        offset: piece_offset(m.piece_length, piece as int),
        download: DownloadView::fresh(
            (piece as int % 0x1_0000_0000) as u32,
            piece_size(m.piece_length, m.total_size, m.total_pieces, piece as int),
        ),
    }
}

/// The next piece is taken off the list, or the work ends for want of one.
pub open spec fn took_next(m: ManagerView) -> Outcome {
    if m.todo.len() == 0 {
        left(m)
    } else {
        advanced(task_for(m.todo.last(), m), m.with_piece_taken())
    }
}

impl WorkerView {
    /// What follows when `event` came of what was to be done.
    pub open spec fn after(self, m: ManagerView, event: EventView, now: u64) -> Outcome {
        match self {
            WorkerView::SendHandshake => if event is Done {
                Outcome {
                    worker: WorkerView::AwaitHandshake,
                    manager: m,
                    action: ActionView::Read {
                        len: HANDSHAKE_LEN as int,
                        limit: Some(ANSWER_LIMIT),
                    },
                }
            } else {
                turned_away(m)
            },
            WorkerView::AwaitHandshake => if event is TimedOut {
                turned_away(m)
            } else {
                asked_to_be_served(m)
            },
            WorkerView::SendInterested => waited(now, now, m),
            WorkerView::AwaitLength { since } => match event {
                EventView::Data(bytes) => if be_value(bytes) == 0 {
                    waited(since, now, m)
                } else {
                    Outcome {
                        worker: WorkerView::AwaitId { since, length: be_value(bytes) as u32 },
                        manager: m,
                        action: ActionView::Read { len: 1, limit: None },
                    }
                },
                _ => waited(since, now, m),
            },
            WorkerView::AwaitId { since, length } => if (event matches EventView::Data(bytes)
                && bytes[0] == 1) {
                Outcome {
                    worker: WorkerView::Opening,
                    manager: m.with_peer(),
                    action: ActionView::Open(m.save_path),
                }
            } else {
                Outcome {
                    worker: WorkerView::SkipMessage { since, len: length - 1 },
                    manager: m,
                    action: ActionView::Read { len: length - 1, limit: None },
                }
            },
            WorkerView::SkipMessage { since, len } => waited(since, now, m),
            WorkerView::Opening => if event is Done {
                took_next(m)
            } else {
                left(m)
            },
            WorkerView::Requesting(task) => if event is Done {
                advanced(task, m)
            } else {
                gave_up(task.piece, m)
            },
            WorkerView::Receiving(task) => match event {
                EventView::Data(bytes) => if task.download.chokes() {
                    gave_up(task.piece, m)
                } else {
                    advanced(
                        TaskView { download: task.download.fed(bytes), ..task },
                        m.with_bytes(task.download.counted()),
                    )
                },
                _ => gave_up(task.piece, m),
            },
            WorkerView::Saving { piece } => took_next(m.with_piece_finished()),
            WorkerView::Stopped => turned_away(m),
        }
    }

    /// Whether the peer is counted among those that serve the download.
    pub open spec fn counted(self) -> bool {
        ||| self is Opening
        ||| self is Requesting
        ||| self is Receiving
        ||| self is Saving
    }

    /// The piece of the download that is in the worker's hands.
    pub open spec fn held_piece(self) -> Option<usize> {
        match self {
            WorkerView::Requesting(task) => Some(task.piece),
            WorkerView::Receiving(task) => Some(task.piece),
            WorkerView::Saving { piece } => Some(piece),
            _ => None,
        }
    }

    /// Whether a piece of the download is in the worker's hands.
    pub open spec fn holds_piece(self) -> bool {
        self.held_piece() is Some
    }

    /// The piece being fetched is one that memory can hold, and when bytes are awaited that is
    /// what the fetching calls for.
    pub open spec fn wf(self) -> bool {
        match self {
            WorkerView::AwaitId { since, length } => length > 0,
            WorkerView::SkipMessage { since, len } => 0 <= len <= u32::MAX,
            WorkerView::Requesting(task) => task.sound(),
            WorkerView::Receiving(task) => task.sound() && task.download.next_step() is Receive,
            _ => true,
        }
    }

    /// Whether the worker works for this download: the piece in its hands is one of its pieces.
    pub open spec fn works_for(self, m: ManagerView) -> bool {
        match self {
            WorkerView::Requesting(task) => task.belongs_to(m),
            WorkerView::Receiving(task) => task.belongs_to(m),
            _ => true,
        }
    }

    /// Whether `event` can be answered: it is one that what was to be done can have, what was read
    /// makes sense, and the counters of the download can follow.
    pub open spec fn admits(self, m: ManagerView, event: EventView) -> bool {
        &&& match self {
            WorkerView::SendHandshake => event is Done || event is Failed,
            WorkerView::AwaitHandshake => reads(event, HANDSHAKE_LEN as int) || event is TimedOut,
            WorkerView::SendInterested => event is Done || event is Failed,
            WorkerView::AwaitLength { since } => reads(event, 4) || event is TimedOut,
            WorkerView::AwaitId { since, length } => {
                &&& reads(event, 1)
                &&& event matches EventView::Data(bytes) ==> bytes[0] == 1 ==> m.peers < usize::MAX
            },
            WorkerView::SkipMessage { since, len } => reads(event, len),
            WorkerView::Opening => (event is Done && can_take_next(m)) || event is Failed,
            WorkerView::Requesting(task) => event is Done || event is Failed,
            WorkerView::Receiving(task) => {
                &&& reads(event, task.download.wanted())
                &&& event matches EventView::Data(bytes) ==> {
                    &&& task.download.admits(bytes)
                    &&& m.downloaded + task.download.counted() <= u64::MAX
                }
            },
            WorkerView::Saving { piece } => {
                &&& event is Done || event is Failed
                &&& m.finished < usize::MAX
                &&& can_take_next(m)
            },
            WorkerView::Stopped => false,
        }
        &&& self.counted() ==> m.peers > 0
    }
}

/// Whether `event` came of reading `len` bytes.
pub open spec fn reads(event: EventView, len: int) -> bool {
    event is Failed || (event matches EventView::Data(bytes) && bytes.len() == len)
}

/// Whether the next piece of the list, if there is one, has a digest and a place in the file, and
/// can be held in memory.
pub open spec fn can_take_next(m: ManagerView) -> bool {
    m.todo.len() > 0 ==> {
        let i = m.todo.last() as int;
        let size = piece_size(m.piece_length, m.total_size, m.total_pieces, i);
        &&& i < m.total_pieces
        &&& i < m.hashes.len()
        &&& m.fits(i)
        &&& size <= isize::MAX
        &&& hashable(size as nat)
    }
}

impl TaskView {
    /// The fetching is well-formed and of a piece that memory can hold.
    pub open spec fn sound(self) -> bool {
        &&& self.download.wf()
        &&& self.download.size <= isize::MAX
        &&& hashable(self.download.size as nat)
        &&& 0 <= self.offset <= usize::MAX
    }

    /// Whether the piece is one of this download's, is asked for by its number, as far as 32 bits
    /// hold it, and is fetched to its place.
    pub open spec fn belongs_to(self, m: ManagerView) -> bool {
        &&& self.piece < m.hashes.len()
        &&& self.download.index == self.piece as int % 0x1_0000_0000
        &&& self.offset == piece_offset(m.piece_length, self.piece as int)
        &&& self.download.size == piece_size(
            m.piece_length,
            m.total_size,
            m.total_pieces,
            self.piece as int,
        )
    }
}

/// A piece in the hands of a worker.
struct Task {
    piece: usize,
    offset: usize,
    download: PieceDownload,
}

impl View for Task {
    type V = TaskView;

    closed spec fn view(&self) -> TaskView {
        TaskView { piece: self.piece, offset: self.offset as int, download: self.download@ }
    }
}

/// How far the work has come.
enum Stage {
    SendHandshake,
    AwaitHandshake,
    SendInterested,
    AwaitLength { since: u64 },
    AwaitId { since: u64, length: u32 },
    SkipMessage { since: u64, len: usize },
    Opening,
    Requesting(Task),
    Receiving(Task),
    Saving { piece: usize },
    Stopped,
}

/// The work with one peer.
pub struct PeerWorker {
    stage: Stage,
}

impl View for PeerWorker {
    type V = WorkerView;

    closed spec fn view(&self) -> WorkerView {
        match self.stage {
            Stage::SendHandshake => WorkerView::SendHandshake,
            Stage::AwaitHandshake => WorkerView::AwaitHandshake,
            Stage::SendInterested => WorkerView::SendInterested,
            Stage::AwaitLength { since } => WorkerView::AwaitLength { since },
            Stage::AwaitId { since, length } => WorkerView::AwaitId { since, length },
            Stage::SkipMessage { since, len } => WorkerView::SkipMessage { since, len: len as int },
            Stage::Opening => WorkerView::Opening,
            Stage::Requesting(task) => WorkerView::Requesting(task@),
            Stage::Receiving(task) => WorkerView::Receiving(task@),
            Stage::Saving { piece } => WorkerView::Saving { piece },
            Stage::Stopped => WorkerView::Stopped,
        }
    }
}

impl PeerWorker {
    /// The view is well-formed, and so is the fetching behind it.
    pub closed spec fn wf(&self) -> bool {
        &&& self@.wf()
        &&& match self.stage {
            Stage::Requesting(task) => task.download.wf(),
            Stage::Receiving(task) => task.download.wf(),
            _ => true,
        }
    }

    /// Starts the work, on a connection that the peer opened and that was answered with a greeting
    /// already, or on one that the client opened.
    pub fn start(info_hash: &[u8; 20], is_inbound: bool) -> (started: (PeerWorker, PeerAction))
        ensures
            started.0.wf(),
            is_inbound ==> started.0@ == WorkerView::SendInterested && started.1@
                == ActionView::Write(interested_bytes()),
            !is_inbound ==> started.0@ == WorkerView::SendHandshake && started.1@
                == ActionView::Write(handshake_bytes(info_hash@)),
    {
        if is_inbound {
            (PeerWorker { stage: Stage::SendInterested }, PeerAction::Write(interested()))
        } else {
            (PeerWorker { stage: Stage::SendHandshake }, PeerAction::Write(handshake(info_hash)))
        }
    }

    /// Whether `event` is that of reading `len` bytes.
    fn is_read(event: &PeerEvent, len: usize) -> (yes: bool)
        ensures
            yes == reads(event@, len as int),
    {
        match event {
            PeerEvent::Failed => true,
            PeerEvent::Data(bytes) => bytes.len() == len,
            _ => false,
        }
    }

    /// Whether `event` is that of something other than reading.
    fn is_result(event: &PeerEvent) -> (yes: bool)
        ensures
            yes == (event@ is Done || event@ is Failed),
    {
        match event {
            PeerEvent::Done => true,
            PeerEvent::Failed => true,
            _ => false,
        }
    }

    /// Whether the next piece of the list can be fetched.
    fn next_piece_ready(manager: &DownloadManager) -> (ready: bool)
        ensures
            ready == can_take_next(manager@),
    {
        let listed: usize = manager.pieces_todo.len();
        if listed == 0 {
            return true;
        }
        let piece: usize = manager.pieces_todo[listed - 1];
        if piece >= manager.total_pieces || piece >= manager.hashes.len() || !has_place(
            manager.piece_length,
            manager.total_size,
            manager.total_pieces,
            piece,
        ) {
            return false;
        }
        let span = piece_span(
            manager.piece_length,
            manager.total_size,
            manager.total_pieces,
            piece,
        );
        PieceDownload::can_hold(span.len)
    }

    /// Whether `event` can be answered.
    pub fn accepts(&self, event: &PeerEvent, manager: &DownloadManager) -> (yes: bool)
        requires
            self.wf(),
        ensures
            yes == self@.admits(manager@, event@),
    {
        match &self.stage {
            Stage::SendHandshake => Self::is_result(event),
            Stage::AwaitHandshake => Self::is_read(event, HANDSHAKE_LEN) || match event {
                PeerEvent::TimedOut => true,
                _ => false,
            },
            Stage::SendInterested => Self::is_result(event),
            Stage::AwaitLength { .. } => Self::is_read(event, 4) || match event {
                PeerEvent::TimedOut => true,
                _ => false,
            },
            Stage::AwaitId { .. } => match event {
                PeerEvent::Failed => true,
                PeerEvent::Data(bytes) => bytes.len() == 1 && (bytes[0] != 1
                    || manager.peer_count < usize::MAX),
                _ => false,
            },
            Stage::SkipMessage { len, .. } => Self::is_read(event, *len),
            Stage::Opening => manager.peer_count > 0 && match event {
                PeerEvent::Done => Self::next_piece_ready(manager),
                PeerEvent::Failed => true,
                _ => false,
            },
            Stage::Requesting(_) => manager.peer_count > 0 && Self::is_result(event),
            Stage::Receiving(task) => manager.peer_count > 0 && match event {
                PeerEvent::Failed => true,
                PeerEvent::Data(bytes) => bytes.len() == task.download.wanted()
                    && task.download.accepts(bytes.as_slice())
                    && task.download.counts() as u64 <= u64::MAX - manager.bytes_downloaded,
                _ => false,
            },
            Stage::Saving { .. } => manager.peer_count > 0 && manager.finished_count < usize::MAX
                && Self::is_result(event) && Self::next_piece_ready(manager),
            Stage::Stopped => false,
        }
    }

    /// Ends the work before the peer was counted.
    fn turn_away() -> (ended: (PeerWorker, PeerAction))
        ensures
            ended.0.wf(),
            ended.0@ is Stopped,
            ended.1@ == ActionView::Stop,
    {
        (PeerWorker { stage: Stage::Stopped }, PeerAction::Stop)
    }

    /// Ends the work and counts the peer out.
    fn leave(manager: &mut DownloadManager) -> (ended: (PeerWorker, PeerAction))
        requires
            old(manager)@.peers > 0,
        ensures
            ended.0.wf(),
            (Outcome { worker: ended.0@, manager: final(manager)@, action: ended.1@ }) == left(
                old(manager)@,
            ),
    {
        manager.peer_left();
        Self::turn_away()
    }

    /// Puts the piece back on the list and ends the work.
    fn give_up(piece: usize, manager: &mut DownloadManager) -> (ended: (PeerWorker, PeerAction))
        requires
            old(manager)@.peers > 0,
        ensures
            ended.0.wf(),
            (Outcome { worker: ended.0@, manager: final(manager)@, action: ended.1@ }) == gave_up(
                piece,
                old(manager)@,
            ),
    {
        manager.return_piece(piece);
        Self::leave(manager)
    }

    /// Sends the wish to be served.
    fn ask_to_be_served() -> (asked: (PeerWorker, PeerAction))
        ensures
            asked.0.wf(),
            asked.0@ is SendInterested,
            asked.1@ == ActionView::Write(interested_bytes()),
    {
        (PeerWorker { stage: Stage::SendInterested }, PeerAction::Write(interested()))
    }

    /// Waits for another message, unless the wait has lasted long enough.
    fn wait(since: u64, now: u64) -> (waiting: (PeerWorker, PeerAction))
        ensures
            waiting.0.wf(),
            forall|m: ManagerView|
                (Outcome { worker: waiting.0@, manager: m, action: waiting.1@ })
                    == #[trigger] waited(since, now, m),
    {
        if now < since || now - since < PATIENCE {
            (
                PeerWorker { stage: Stage::AwaitLength { since } },
                PeerAction::Read { len: 4, limit: Some(ANSWER_LIMIT) },
            )
        } else {
            Self::turn_away()
        }
    }

    /// Goes on with the fetching of a piece.
    fn advance(mut task: Task, manager: &mut DownloadManager) -> (going: (PeerWorker, PeerAction))
        requires
            task.download.wf(),
            task.piece < old(manager)@.hashes.len(),
            old(manager)@.peers > 0,
        ensures
            going.0.wf(),
            (Outcome { worker: going.0@, manager: final(manager)@, action: going.1@ }) == advanced(
                task@,
                old(manager)@,
            ),
    {
        let ghost given = task@;
        proof {
            task.download.lemma_wf();
        }
        let action = task.download.next_action();
        proof {
            task.download.lemma_wf();
        }
        match action {
            DownloadAction::Send(bytes) => {
                assert(task@ == (TaskView { download: given.download.stepped(), ..given }));
                (PeerWorker { stage: Stage::Requesting(task) }, PeerAction::Write(bytes))
            },
            DownloadAction::Receive(len) => {
                assert(task@ == given);
                (PeerWorker { stage: Stage::Receiving(task) }, PeerAction::Read { len, limit: None })
            },
            DownloadAction::Complete => {
                assert(task@ == given);
                let hash: [u8; 20] = manager.hashes[task.piece];
                match task.download.finish(&hash) {
                    Ok(data) => (
                        PeerWorker { stage: Stage::Saving { piece: task.piece } },
                        PeerAction::Save { offset: task.offset, data },
                    ),
                    Err(_) => Self::give_up(task.piece, manager),
                }
            },
        }
    }

    /// Takes the next piece off the list, or ends the work for want of one.
    fn take_next(manager: &mut DownloadManager) -> (going: (PeerWorker, PeerAction))
        requires
            can_take_next(old(manager)@),
            old(manager)@.peers > 0,
        ensures
            going.0.wf(),
            (Outcome { worker: going.0@, manager: final(manager)@, action: going.1@ }) == took_next(
                old(manager)@,
            ),
    {
        match manager.take_piece() {
            None => Self::leave(manager),
            Some(piece) => {
                let span = piece_span(
                    manager.piece_length,
                    manager.total_size,
                    manager.total_pieces,
                    piece,
                );
                let index: u32 = (piece as u64 % 0x1_0000_0000) as u32;
                let task = Task {
                    piece,
                    offset: span.offset,
                    download: PieceDownload::new(index, span.len),
                };
                assert(task@ == task_for(piece, old(manager)@));
                Self::advance(task, manager)
            },
        }
    }

    /// Answers what came of the last action with the next. `now` is the time in nanoseconds since
    /// a moment of the caller's choice.
    pub fn step(self, event: PeerEvent, now: u64, manager: &mut DownloadManager) -> (next: (
        PeerWorker,
        PeerAction,
    ))
        requires
            self.wf(),
            self@.works_for(old(manager)@),
            self@.admits(old(manager)@, event@),
        ensures
            next.0.wf(),
            next.0@.wf(),
            next.0@.works_for(final(manager)@),
            (Outcome { worker: next.0@, manager: final(manager)@, action: next.1@ })
                == self@.after(old(manager)@, event@, now),
    {
        proof {
            law_steps_keep_workers_sound(self@, old(manager)@, event@, now);
        }
        match self.stage {
            Stage::SendHandshake => match event {
                PeerEvent::Done => (
                    PeerWorker { stage: Stage::AwaitHandshake },
                    PeerAction::Read { len: HANDSHAKE_LEN, limit: Some(ANSWER_LIMIT) },
                ),
                _ => Self::turn_away(),
            },
            Stage::AwaitHandshake => match event {
                PeerEvent::TimedOut => Self::turn_away(),
                _ => Self::ask_to_be_served(),
            },
            Stage::SendInterested => Self::wait(now, now),
            Stage::AwaitLength { since } => match event {
                PeerEvent::Data(bytes) => {
                    assert(bytes@.subrange(0, 4) == bytes@);
                    let length: u32 = read_be32(bytes.as_slice(), 0);
                    if length == 0 {
                        Self::wait(since, now)
                    } else {
                        (
                            PeerWorker { stage: Stage::AwaitId { since, length } },
                            PeerAction::Read { len: 1, limit: None },
                        )
                    }
                },
                _ => Self::wait(since, now),
            },
            Stage::AwaitId { since, length } => {
                let id: u8 = match event {
                    PeerEvent::Data(bytes) => bytes[0],
                    _ => 0,
                };
                if id == 1 {
                    manager.peer_joined();
                    (
                        PeerWorker { stage: Stage::Opening },
                        PeerAction::Open(manager.save_path.clone()),
                    )
                } else {
                    let len: usize = (length - 1) as usize;
                    (
                        PeerWorker { stage: Stage::SkipMessage { since, len } },
                        PeerAction::Read { len, limit: None },
                    )
                }
            },
            Stage::SkipMessage { since, .. } => Self::wait(since, now),
            Stage::Opening => match event {
                PeerEvent::Done => Self::take_next(manager),
                _ => Self::leave(manager),
            },
            Stage::Requesting(task) => match event {
                PeerEvent::Done => Self::advance(task, manager),
                _ => Self::give_up(task.piece, manager),
            },
            Stage::Receiving(task) => match event {
                PeerEvent::Data(bytes) => Self::receive(task, bytes, manager),
                _ => Self::give_up(task.piece, manager),
            },
            Stage::Saving { .. } => {
                manager.finish_piece();
                Self::take_next(manager)
            },
            Stage::Stopped => Self::turn_away(),
        }
    }

    /// Takes in bytes of a piece and goes on with it.
    fn receive(mut task: Task, bytes: Vec<u8>, manager: &mut DownloadManager) -> (going: (
        PeerWorker,
        PeerAction,
    ))
        requires
            task.download.wf(),
            WorkerView::Receiving(task@).wf(),
            WorkerView::Receiving(task@).works_for(old(manager)@),
            WorkerView::Receiving(task@).admits(old(manager)@, EventView::Data(bytes@)),
        ensures
            going.0.wf(),
            (Outcome { worker: going.0@, manager: final(manager)@, action: going.1@ })
                == WorkerView::Receiving(task@).after(
                old(manager)@,
                EventView::Data(bytes@),
                0,
            ),
    {
        let ghost given = task@;
        match task.download.feed(bytes.as_slice()) {
            Err(_) => Self::give_up(task.piece, manager),
            Ok(counted) => {
                assert(task@ == (TaskView { download: given.download.fed(bytes@), ..given }));
                manager.count_bytes(counted);
                Self::advance(task, manager)
            },
        }
    }
}

/// Whether these bytes, at this offset, are the given piece of the download, in its place.
pub open spec fn is_piece(m: ManagerView, piece: usize, offset: int, data: Seq<u8>) -> bool {
    &&& piece < m.hashes.len()
    &&& sha1_of(data) == m.hashes[piece as int]@
    &&& offset == piece_offset(m.piece_length, piece as int)
    &&& data.len() == piece_size(m.piece_length, m.total_size, m.total_pieces, piece as int)
}

/// The worker is sound and stays with the download, and what is to be saved is the piece in its
/// hands.
#[verifier::opaque]
spec fn in_order(out: Outcome) -> bool {
    &&& out.worker.wf()
    &&& out.worker.works_for(out.manager)
    &&& out.action matches ActionView::Save { offset, data } ==> {
        &&& out.worker is Saving
        &&& is_piece(out.manager, out.worker.held_piece()->0, offset, data)
    }
}

/// A worker without a piece in its hands is in order.
proof fn lemma_idle_in_order(out: Outcome)
    requires
        out.worker.wf(),
        !out.worker.holds_piece(),
        !(out.action is Save),
    ensures
        in_order(out),
{
    reveal(in_order);
}

/// Going on with a sound task is in order.
proof fn lemma_advanced_in_order(task: TaskView, m: ManagerView)
    requires
        task.sound(),
        task.belongs_to(m),
    ensures
        in_order(advanced(task, m)),
{
    reveal(in_order);
    law_steps_keep_order(task.download, Seq::empty());
    if task.download.next_step() is Complete && sha1_of(task.download.content())
        == m.hashes[task.piece as int]@ {
        lemma_assembled_len(task.download.size, task.download.blocks);
        assert(is_piece(m, task.piece, task.offset, task.download.content()));
    }
}

/// Taking the next piece is in order.
proof fn lemma_took_next_in_order(m: ManagerView)
    requires
        can_take_next(m),
    ensures
        in_order(took_next(m)),
{
    lemma_idle_in_order(left(m));
    if m.todo.len() > 0 {
        let i = m.todo.last() as int;
        assert(0 <= i * m.piece_length) by (nonlinear_arith)
            requires
                0 <= i,
                0 <= m.piece_length,
        ;
        assert(m.fits(i));
        lemma_advanced_in_order(task_for(m.todo.last(), m), m.with_piece_taken());
    }
}

/// Taking in bytes is in order.
proof fn lemma_received_in_order(task: TaskView, m: ManagerView, event: EventView, now: u64)
    requires
        WorkerView::Receiving(task).wf(),
        WorkerView::Receiving(task).works_for(m),
        WorkerView::Receiving(task).admits(m, event),
    ensures
        in_order(WorkerView::Receiving(task).after(m, event, now)),
{
    lemma_idle_in_order(gave_up(task.piece, m));
    if let EventView::Data(bytes) = event {
        if !task.download.chokes() {
            law_steps_keep_order(task.download, bytes);
            lemma_advanced_in_order(
                TaskView { download: task.download.fed(bytes), ..task },
                m.with_bytes(task.download.counted()),
            );
        }
    }
}

/// Every step is in order.
proof fn lemma_step_in_order(w: WorkerView, m: ManagerView, event: EventView, now: u64)
    requires
        w.wf(),
        w.works_for(m),
        w.admits(m, event),
    ensures
        in_order(w.after(m, event, now)),
{
    match w {
        WorkerView::Opening => {
            if event is Done {
                lemma_took_next_in_order(m);
            } else {
                lemma_idle_in_order(left(m));
            }
        },
        WorkerView::Requesting(task) => {
            lemma_advanced_in_order(task, m);
            lemma_idle_in_order(gave_up(task.piece, m));
        },
        WorkerView::Receiving(task) => {
            lemma_received_in_order(task, m, event, now);
        },
        WorkerView::Saving { piece } => {
            lemma_took_next_in_order(m.with_piece_finished());
        },
        WorkerView::AwaitLength { since } => {
            if let EventView::Data(bytes) = event {
                lemma_be_value_bound(bytes);
            }
            lemma_idle_in_order(w.after(m, event, now));
        },
        _ => {
            lemma_idle_in_order(w.after(m, event, now));
        },
    }
}

/// A worker stays sound, and stays with its download, through every step.
pub proof fn law_steps_keep_workers_sound(
    w: WorkerView,
    m: ManagerView,
    event: EventView,
    now: u64,
)
    requires
        w.wf(),
        w.works_for(m),
        w.admits(m, event),
    ensures
        w.after(m, event, now).worker.wf(),
        w.after(m, event, now).worker.works_for(w.after(m, event, now).manager),
{
    lemma_step_in_order(w, m, event, now);
    reveal(in_order);
}

/// The step of one worker leaves alone what the others rely on: what the download is, where its
/// pieces lie and what their digests are.
pub proof fn law_steps_leave_the_description_alone(
    w: WorkerView,
    m: ManagerView,
    event: EventView,
    now: u64,
    other: WorkerView,
)
    requires
        w.admits(m, event),
    ensures
        ({
            let n = w.after(m, event, now).manager;
            &&& n == (ManagerView {
                todo: n.todo,
                finished: n.finished,
                downloaded: n.downloaded,
                peers: n.peers,
                ..m
            })
            &&& other.works_for(m) ==> other.works_for(n)
        }),
{
}

/// A peer is counted from the moment it serves until the work with it ends: every step changes the
/// number of peers by what it changes in that, so that a worker that has stopped leaves the number
/// as it found it.
pub proof fn law_peer_is_counted_while_it_serves(
    w: WorkerView,
    m: ManagerView,
    event: EventView,
    now: u64,
)
    requires
        w.admits(m, event),
    ensures
        ({
            let out = w.after(m, event, now);
            out.manager.peers - (if out.worker.counted() {
                1int
            } else {
                0
            }) == m.peers - (if w.counted() {
                1int
            } else {
                0
            })
        }),
{
}

/// No piece is lost: every step keeps the sum of the finished pieces, the listed ones and the one
/// in the worker's hands.
pub proof fn law_no_piece_is_lost(w: WorkerView, m: ManagerView, event: EventView, now: u64)
    requires
        w.admits(m, event),
    ensures
        ({
            let out = w.after(m, event, now);
            out.manager.finished + out.manager.todo.len() + (if out.worker.holds_piece() {
                1int
            } else {
                0
            }) == m.finished + m.todo.len() + (if w.holds_piece() {
                1int
            } else {
                0
            })
        }),
{
}

/// The list of a download stays valid through every step.
pub proof fn law_steps_keep_the_list_valid(
    w: WorkerView,
    m: ManagerView,
    event: EventView,
    now: u64,
)
    requires
        m.wf(),
        w.works_for(m),
        w.admits(m, event),
    ensures
        w.after(m, event, now).manager.wf(),
{
}

/// Only pieces are saved: what is handed out to be written has the digest and the length of the
/// piece in the worker's hands, and goes to the place of that piece.
pub proof fn law_only_pieces_are_saved(
    w: WorkerView,
    m: ManagerView,
    event: EventView,
    now: u64,
)
    requires
        w.wf(),
        w.works_for(m),
        w.admits(m, event),
    ensures
        w.after(m, event, now).action matches ActionView::Save { offset, data } ==> {
            &&& w.after(m, event, now).worker is Saving
            &&& is_piece(m, w.after(m, event, now).worker.held_piece()->0, offset, data)
        },
{
    lemma_step_in_order(w, m, event, now);
    reveal(in_order);
    law_steps_leave_the_description_alone(w, m, event, now, w);
}

/// Whether the file holds piece `i` of the download.
pub open spec fn on_disk(m: ManagerView, file: Seq<u8>, i: int) -> bool {
    piece_present(
        Some(bytes_at(file, m.piece_length, m.total_size, m.total_pieces, i)),
        m.hashes[i],
    )
}

/// Whether every piece of the download is on the list, in the hands of others, being fetched by the
/// worker, or in the file.
pub open spec fn secured(
    w: WorkerView,
    m: ManagerView,
    file: Seq<u8>,
    others: Set<usize>,
) -> bool {
    forall|i: int|
        0 <= i < m.total_pieces ==> {
            ||| m.todo.contains(i as usize)
            ||| others.contains(i as usize)
            ||| w.held_piece() == Some(i as usize) && !(w is Saving)
            ||| #[trigger] on_disk(m, file, i)
        }
}

/// The file after an action was carried out.
pub open spec fn carried_out(file: Seq<u8>, action: ActionView) -> Seq<u8> {
    match action {
        ActionView::Save { offset, data } => written(file, offset, data),
        _ => file,
    }
}

/// Whether a download and its file belong together: every piece has its digest and its place, and
/// the file has the length of the contents.
pub open spec fn matches_file(m: ManagerView, file: Seq<u8>) -> bool {
    &&& m.wf()
    &&& m.total_pieces <= usize::MAX
    &&& laid_out(m.piece_length, m.total_size, m.total_pieces)
    &&& file.len() == m.total_size
}

/// No data is lost: while every piece is listed, in somebody's hands or in the file, this stays so
/// through every step of the worker, when what is to be saved is written. What the file held it
/// still holds.
pub proof fn law_no_data_is_lost(
    w: WorkerView,
    m: ManagerView,
    event: EventView,
    now: u64,
    file: Seq<u8>,
    others: Set<usize>,
)
    requires
        w.wf(),
        w.works_for(m),
        w.admits(m, event),
        matches_file(m, file),
        secured(w, m, file, others),
    ensures
        ({
            let out = w.after(m, event, now);
            let after = carried_out(file, out.action);
            &&& secured(out.worker, out.manager, after, others)
            &&& matches_file(out.manager, after)
            &&& forall|i: int|
                0 <= i < m.total_pieces && on_disk(m, file, i) ==> #[trigger] on_disk(
                    out.manager,
                    after,
                    i,
                )
        }),
{
    law_only_pieces_are_saved(w, m, event, now);
    law_steps_leave_the_description_alone(w, m, event, now, w);
    law_steps_keep_the_list_valid(w, m, event, now);
    law_finished_means_saved(w, m, event, now);
    assert forall|i: usize|
        m.todo.contains(i) || w.held_piece() == Some(i) && !(w is Saving) implies moved_on(
        w.after(m, event, now),
        i,
    ) by {
        lemma_pieces_move_on(w, m, event, now, i);
    }
    lemma_secured_after(w, m, w.after(m, event, now), file, others);
}

/// Whether a piece is listed or in the worker's hands.
spec fn moved_on(out: Outcome, i: usize) -> bool {
    out.manager.todo.contains(i) || out.worker.held_piece() == Some(i)
}

/// No data is lost when no piece gets out of sight and what is saved is a piece.
proof fn lemma_secured_after(
    w: WorkerView,
    m: ManagerView,
    out: Outcome,
    file: Seq<u8>,
    others: Set<usize>,
)
    requires
        matches_file(m, file),
        secured(w, m, file, others),
        out.manager.wf(),
        out.manager.total_pieces == m.total_pieces,
        out.manager.piece_length == m.piece_length,
        out.manager.total_size == m.total_size,
        out.manager.hashes == m.hashes,
        forall|i: usize|
            m.todo.contains(i) || w.held_piece() == Some(i) && !(w is Saving) ==> #[trigger] moved_on(
                out,
                i,
            ),
        out.worker is Saving <==> out.action is Save,
        out.action matches ActionView::Save { offset, data } ==> is_piece(
            m,
            out.worker.held_piece()->0,
            offset,
            data,
        ),
    ensures
        secured(out.worker, out.manager, carried_out(file, out.action), others),
        matches_file(out.manager, carried_out(file, out.action)),
        forall|i: int|
            0 <= i < m.total_pieces && on_disk(m, file, i) ==> #[trigger] on_disk(
                out.manager,
                carried_out(file, out.action),
                i,
            ),
{
    let n = out.manager;
    let after = carried_out(file, out.action);
    assert forall|i: int| 0 <= i < m.total_pieces && on_disk(m, file, i) implies #[trigger] on_disk(
        n,
        after,
        i,
    ) by {
        if let ActionView::Save { offset, data } = out.action {
            lemma_written_piece_is_on_disk(m, file, out.worker.held_piece()->0, offset, data, i);
        }
    }
    assert forall|i: int| 0 <= i < n.total_pieces implies {
        ||| n.todo.contains(i as usize)
        ||| others.contains(i as usize)
        ||| out.worker.held_piece() == Some(i as usize) && !(out.worker is Saving)
        ||| #[trigger] on_disk(n, after, i)
    } by {
        if on_disk(m, file, i) {
            assert(on_disk(n, after, i));
        } else if !others.contains(i as usize) {
            assert(moved_on(out, i as usize));
            if let ActionView::Save { offset, data } = out.action {
                lemma_written_piece_is_on_disk(
                    m,
                    file,
                    out.worker.held_piece()->0,
                    offset,
                    data,
                    i,
                );
            }
        }
    }
}

/// Writing a piece puts it in the file and leaves the others there.
proof fn lemma_written_piece_is_on_disk(
    m: ManagerView,
    file: Seq<u8>,
    piece: usize,
    offset: int,
    data: Seq<u8>,
    i: int,
)
    requires
        matches_file(m, file),
        is_piece(m, piece, offset, data),
        0 <= i < m.total_pieces,
    ensures
        on_disk(m, written(file, offset, data), piece as int),
        on_disk(m, file, i) ==> on_disk(m, written(file, offset, data), i),
{
    let after = written(file, offset, data);
    law_saved_piece_is_found_again(
        file,
        data,
        m.piece_length,
        m.total_size,
        m.hashes,
        piece as int,
    );
    law_scan_lists_what_is_missing(
        reads_of(after, m.piece_length, m.total_size, m.total_pieces),
        m.hashes,
    );
    assert(bytes_at(after, m.piece_length, m.total_size, m.total_pieces, i) == bytes_at(
        after,
        m.piece_length,
        m.total_size,
        m.total_pieces,
        i,
    ));
}

/// Going on with a piece, or giving it up, keeps it and the listed ones in sight.
proof fn lemma_advanced_moves_on(task: TaskView, m: ManagerView, i: usize)
    requires
        m.todo.contains(i) || task.piece == i,
    ensures
        moved_on(advanced(task, m), i),
        moved_on(gave_up(task.piece, m), i),
{
    let longer = m.todo.push(task.piece);
    if m.todo.contains(i) {
        let k = choose|k: int| 0 <= k < m.todo.len() && m.todo[k] == i;
        assert(longer[k] == i);
    } else {
        assert(longer[m.todo.len() as int] == i);
    }
}

/// Taking the next piece keeps the listed ones in sight.
proof fn lemma_took_next_moves_on(m: ManagerView, i: usize)
    requires
        m.todo.contains(i),
    ensures
        moved_on(took_next(m), i),
{
    let k = choose|k: int| 0 <= k < m.todo.len() && m.todo[k] == i;
    let n = m.with_piece_taken();
    if k < n.todo.len() {
        assert(n.todo[k] == i);
    }
    lemma_advanced_moves_on(task_for(m.todo.last(), m), n, i);
}

/// A piece that was listed or in the worker's hands is listed or in its hands after a step, unless
/// it was just saved.
proof fn lemma_pieces_move_on(w: WorkerView, m: ManagerView, event: EventView, now: u64, i: usize)
    requires
        w.admits(m, event),
        m.todo.contains(i) || w.held_piece() == Some(i) && !(w is Saving),
    ensures
        moved_on(w.after(m, event, now), i),
{
    match w {
        WorkerView::Opening => {
            lemma_took_next_moves_on(m, i);
        },
        WorkerView::Requesting(task) => {
            lemma_advanced_moves_on(task, m, i);
        },
        WorkerView::Receiving(task) => {
            lemma_advanced_moves_on(task, m, i);
            if let EventView::Data(bytes) = event {
                lemma_advanced_moves_on(
                    TaskView { download: task.download.fed(bytes), ..task },
                    m.with_bytes(task.download.counted()),
                    i,
                );
            }
        },
        WorkerView::Saving { piece } => {
            lemma_took_next_moves_on(m.with_piece_finished(), i);
        },
        _ => {},
    }
}

/// A piece counts as finished only after it was handed out to be saved, and work is over exactly
/// when there is nothing more to do.
pub proof fn law_finished_means_saved(w: WorkerView, m: ManagerView, event: EventView, now: u64)
    requires
        w.admits(m, event),
    ensures
        ({
            let out = w.after(m, event, now);
            &&& out.manager.finished == m.finished + (if w is Saving {
                1int
            } else {
                0
            })
            &&& out.worker is Saving <==> out.action is Save
            &&& out.worker is Stopped <==> out.action is Stop
        }),
{
}

/// Whether the listed pieces, the one in the worker's hands and those in `taken` are all different.
pub open spec fn apart(w: WorkerView, m: ManagerView, taken: Set<usize>) -> bool {
    &&& m.todo.no_duplicates()
    &&& forall|k: int| 0 <= k < m.todo.len() ==> !taken.contains(#[trigger] m.todo[k])
    &&& w.held_piece() matches Some(piece) ==> !m.todo.contains(piece) && !taken.contains(piece)
}

/// No piece is fetched twice: while the listed pieces, the one in a worker's hands and those that
/// are finished or in the hands of others are all different, they stay so through every step of
/// the worker, a piece that was saved joining the finished ones.
pub proof fn law_no_piece_is_fetched_twice(
    w: WorkerView,
    m: ManagerView,
    event: EventView,
    now: u64,
    taken: Set<usize>,
)
    requires
        w.admits(m, event),
        apart(w, m, taken),
    ensures
        apart(
            w.after(m, event, now).worker,
            w.after(m, event, now).manager,
            match w {
                WorkerView::Saving { piece } => taken.insert(piece),
                _ => taken,
            },
        ),
{
    match w {
        WorkerView::Opening => {
            lemma_took_next_apart(m, taken);
        },
        WorkerView::Requesting(task) => {
            lemma_advanced_apart(task, m, taken);
        },
        WorkerView::Receiving(task) => {
            if let EventView::Data(bytes) = event {
                lemma_advanced_apart(
                    TaskView { download: task.download.fed(bytes), ..task },
                    m.with_bytes(task.download.counted()),
                    taken,
                );
            }
            lemma_gave_up_apart(task.piece, m, taken);
        },
        WorkerView::Saving { piece } => {
            let more = taken.insert(piece);
            assert forall|k: int| 0 <= k < m.todo.len() implies !more.contains(
                #[trigger] m.todo[k],
            ) by {
                assert(m.todo.contains(m.todo[k]));
            }
            lemma_took_next_apart(m.with_piece_finished(), more);
        },
        _ => {},
    }
}

/// Putting a piece back keeps the pieces apart.
proof fn lemma_gave_up_apart(piece: usize, m: ManagerView, taken: Set<usize>)
    requires
        m.todo.no_duplicates(),
        forall|k: int| 0 <= k < m.todo.len() ==> !taken.contains(#[trigger] m.todo[k]),
        !m.todo.contains(piece),
        !taken.contains(piece),
    ensures
        apart(gave_up(piece, m).worker, gave_up(piece, m).manager, taken),
{
    let longer = m.todo.push(piece);
    assert forall|a: int, b: int|
        0 <= a < longer.len() && 0 <= b < longer.len() && a != b implies longer[a] != longer[b] by {
        if a < m.todo.len() {
            assert(m.todo.contains(m.todo[a]));
        }
        if b < m.todo.len() {
            assert(m.todo.contains(m.todo[b]));
        }
    }
}

/// Going on with a piece keeps the pieces apart.
proof fn lemma_advanced_apart(task: TaskView, m: ManagerView, taken: Set<usize>)
    requires
        m.todo.no_duplicates(),
        forall|k: int| 0 <= k < m.todo.len() ==> !taken.contains(#[trigger] m.todo[k]),
        !m.todo.contains(task.piece),
        !taken.contains(task.piece),
    ensures
        apart(advanced(task, m).worker, advanced(task, m).manager, taken),
        apart(gave_up(task.piece, m).worker, gave_up(task.piece, m).manager, taken),
{
    lemma_gave_up_apart(task.piece, m, taken);
}

/// Taking the next piece keeps the pieces apart.
proof fn lemma_took_next_apart(m: ManagerView, taken: Set<usize>)
    requires
        m.todo.no_duplicates(),
        forall|k: int| 0 <= k < m.todo.len() ==> !taken.contains(#[trigger] m.todo[k]),
    ensures
        apart(took_next(m).worker, took_next(m).manager, taken),
{
    if m.todo.len() > 0 {
        let n = m.with_piece_taken();
        let piece = m.todo.last();
        assert(piece == m.todo[m.todo.len() - 1]);
        assert forall|k: int| 0 <= k < n.todo.len() implies !taken.contains(
            #[trigger] n.todo[k],
        ) && n.todo[k] != piece by {
            assert(n.todo[k] == m.todo[k]);
        }
        lemma_advanced_apart(task_for(piece, m), n, taken);
    }
}

/// What happened, and when.
#[verifier::ext_equal]
pub struct Happening {
    pub event: EventView,
    pub now: u64,
}

/// How far the work has come, and the download, after a series of events.
pub open spec fn after_all(w: WorkerView, m: ManagerView, events: Seq<Happening>) -> (
    WorkerView,
    ManagerView,
)
    decreases events.len(),
{
    if events.len() == 0 {
        (w, m)
    } else {
        let before = after_all(w, m, events.drop_last());
        let out = before.0.after(before.1, events.last().event, events.last().now);
        (out.worker, out.manager)
    }
}

/// Whether each of a series of events can be answered in its turn.
pub open spec fn admits_all(w: WorkerView, m: ManagerView, events: Seq<Happening>) -> bool
    decreases events.len(),
{
    events.len() == 0 || {
        let before = after_all(w, m, events.drop_last());
        &&& admits_all(w, m, events.drop_last())
        &&& before.0.admits(before.1, events.last().event)
    }
}

/// Work that is over leaves the books balanced, however it went: the number of peers is what it was
/// before, and every piece that was taken is finished or back on the list.
pub proof fn law_work_leaves_the_books_balanced(
    w: WorkerView,
    m: ManagerView,
    events: Seq<Happening>,
)
    requires
        w is SendHandshake || w is SendInterested,
        admits_all(w, m, events),
        after_all(w, m, events).0 is Stopped,
    ensures
        after_all(w, m, events).1.peers == m.peers,
        after_all(w, m, events).1.finished + after_all(w, m, events).1.todo.len() == m.finished
            + m.todo.len(),
        after_all(w, m, events).1.finished >= m.finished,
{
    lemma_books(w, m, events);
}

/// The books through a series of events.
proof fn lemma_books(w: WorkerView, m: ManagerView, events: Seq<Happening>)
    requires
        w is SendHandshake || w is SendInterested,
        admits_all(w, m, events),
    ensures
        ({
            let (v, n) = after_all(w, m, events);
            &&& n.peers == m.peers + (if v.counted() {
                1int
            } else {
                0
            })
            &&& n.finished + n.todo.len() + (if v.holds_piece() {
                1int
            } else {
                0
            }) == m.finished + m.todo.len()
            &&& n.finished >= m.finished
        }),
    decreases events.len(),
{
    if events.len() > 0 {
        let before = after_all(w, m, events.drop_last());
        let last = events.last();
        lemma_books(w, m, events.drop_last());
        law_peer_is_counted_while_it_serves(before.0, before.1, last.event, last.now);
        law_no_piece_is_lost(before.0, before.1, last.event, last.now);
        law_finished_means_saved(before.0, before.1, last.event, last.now);
    }
}

/// A download that is taken up again starts out with every piece listed or in the file, when what
/// was read of the file is what it holds.
pub proof fn law_resumed_download_is_secured(
    w: WorkerView,
    plan: TorrentPlan,
    id: u32,
    reads: Seq<Option<Seq<u8>>>,
    now: u64,
    file: Seq<u8>,
)
    requires
        reads.len() == plan.hashes@.len() <= usize::MAX,
        forall|i: int|
            0 <= i < reads.len() ==> ((#[trigger] reads[i]) matches Some(bytes) ==> bytes == bytes_at(
                file,
                plan.piece_length,
                plan.total_size,
                reads.len() as int,
                i,
            )),
    ensures
        ({
            let todo = missing_pieces(reads, plan.hashes@);
            let m = ManagerView::fresh(plan, id, todo, reads.len() - todo.len(), now);
            secured(w, m, file, Set::empty())
        }),
{
    let todo = missing_pieces(reads, plan.hashes@);
    let m = ManagerView::fresh(plan, id, todo, reads.len() - todo.len(), now);
    law_scan_lists_what_is_missing(reads, plan.hashes@);
    assert forall|i: int| 0 <= i < m.total_pieces implies m.todo.contains(i as usize)
        || #[trigger] on_disk(m, file, i) by {
        if !todo.contains(i as usize) {
            assert(piece_present(reads[i], plan.hashes@[i]));
        }
    }
}

/// The file after a series of events, when what was to be saved was written.
pub open spec fn file_after_all(
    w: WorkerView,
    m: ManagerView,
    file: Seq<u8>,
    events: Seq<Happening>,
) -> Seq<u8>
    decreases events.len(),
{
    if events.len() == 0 {
        file
    } else {
        let before = after_all(w, m, events.drop_last());
        let out = before.0.after(before.1, events.last().event, events.last().now);
        carried_out(file_after_all(w, m, file, events.drop_last()), out.action)
    }
}

/// Work that leaves nothing to fetch leaves a complete file, however it went: when every piece was
/// listed or in the file before, and none is listed after, a scan finds no piece missing.
pub proof fn law_work_that_leaves_nothing_completes_the_file(
    w: WorkerView,
    m: ManagerView,
    file: Seq<u8>,
    events: Seq<Happening>,
)
    requires
        w is SendHandshake || w is SendInterested,
        admits_all(w, m, events),
        matches_file(m, file),
        secured(w, m, file, Set::empty()),
        after_all(w, m, events).0 is Stopped,
        after_all(w, m, events).1.todo.len() == 0,
    ensures
        missing_pieces(
            reads_of(
                file_after_all(w, m, file, events),
                m.piece_length,
                m.total_size,
                m.total_pieces,
            ),
            m.hashes,
        ) == Seq::<usize>::empty(),
{
    let (v, n) = after_all(w, m, events);
    let after = file_after_all(w, m, file, events);
    let reads = reads_of(after, m.piece_length, m.total_size, m.total_pieces);
    lemma_secured_through(w, m, file, events);
    assert forall|i: int| 0 <= i < reads.len() implies piece_present(
        #[trigger] reads[i],
        m.hashes[i],
    ) by {
        assert(on_disk(n, after, i));
    }
    law_complete_file_is_recognised(reads, m.hashes);
}

/// Every piece stays listed, in the worker's hands or in the file through a series of events.
proof fn lemma_secured_through(
    w: WorkerView,
    m: ManagerView,
    file: Seq<u8>,
    events: Seq<Happening>,
)
    requires
        w is SendHandshake || w is SendInterested,
        admits_all(w, m, events),
        matches_file(m, file),
        secured(w, m, file, Set::empty()),
    ensures
        ({
            let (v, n) = after_all(w, m, events);
            let after = file_after_all(w, m, file, events);
            &&& v.wf()
            &&& v.works_for(n)
            &&& matches_file(n, after)
            &&& secured(v, n, after, Set::empty())
            &&& n.piece_length == m.piece_length
            &&& n.total_size == m.total_size
            &&& n.total_pieces == m.total_pieces
            &&& n.hashes == m.hashes
        }),
    decreases events.len(),
{
    if events.len() > 0 {
        let before = after_all(w, m, events.drop_last());
        let held = file_after_all(w, m, file, events.drop_last());
        let last = events.last();
        lemma_secured_through(w, m, file, events.drop_last());
        law_no_data_is_lost(before.0, before.1, last.event, last.now, held, Set::empty());
        law_steps_keep_workers_sound(before.0, before.1, last.event, last.now);
        law_steps_leave_the_description_alone(
            before.0,
            before.1,
            last.event,
            last.now,
            before.0,
        );
    }
}

/// What is to be done, and what came of it, is seen as it is.
pub proof fn law_actions_and_events_are_seen_whole(
    bytes: Vec<u8>,
    path: String,
    len: usize,
    limit: Option<u64>,
)
    ensures
        PeerAction::Write(bytes)@ == ActionView::Write(bytes@),
        (PeerAction::Read { len, limit })@ == (ActionView::Read { len: len as int, limit }),
        PeerAction::Open(path)@ == ActionView::Open(path@),
        (PeerAction::Save { offset: len, data: bytes })@ == (ActionView::Save {
            offset: len as int,
            data: bytes@,
        }),
        PeerAction::Stop@ == ActionView::Stop,
        PeerEvent::Done@ == EventView::Done,
        PeerEvent::Failed@ == EventView::Failed,
        PeerEvent::TimedOut@ == EventView::TimedOut,
        PeerEvent::Data(bytes)@ == EventView::Data(bytes@),
{
}

/// Whether a request, if one is sent, is a message of seventeen bytes that spells the number of the
/// piece in the worker's hands, as far as 32 bits hold it, and so the number itself in a download of
/// no more pieces than 32 bits can count; and whether it asks for the part of the piece that follows
/// what was asked for before.
pub open spec fn names_its_piece(out: Outcome, m: ManagerView) -> bool {
    out.worker matches WorkerView::Requesting(task) ==> {
        &&& out.action matches ActionView::Write(message)
        &&& message.len() == 17
        &&& be_value(message.subrange(0, 4)) == 13
        &&& message[4] == 6
        &&& be_value(message.subrange(5, 9)) == task.piece as int % 0x1_0000_0000
        &&& m.hashes.len() <= 0x1_0000_0000 ==> be_value(message.subrange(5, 9)) == task.piece
        &&& task.download.sent.len() > 0
        &&& be_value(message.subrange(9, 13)) == task.download.sent.last().begin % 0x1_0000_0000
        &&& be_value(message.subrange(13, 17)) == task.download.sent.last().len
        &&& task.download.size <= u32::MAX ==> {
            &&& be_value(message.subrange(9, 13)) == 16384 * (task.download.sent.len() - 1)
            &&& 0 < be_value(message.subrange(13, 17)) <= 16384
            &&& be_value(message.subrange(9, 13)) + be_value(message.subrange(13, 17))
                <= piece_size(m.piece_length, m.total_size, m.total_pieces, task.piece as int)
        }
    }
}

/// A request names the piece in the worker's hands, whenever one is sent.
pub proof fn law_requests_name_the_held_piece(
    w: WorkerView,
    m: ManagerView,
    event: EventView,
    now: u64,
)
    requires
        w.wf(),
        w.works_for(m),
        w.admits(m, event),
    ensures
        names_its_piece(w.after(m, event, now), m),
        w.after(m, event, now).worker matches WorkerView::Requesting(task) ==> {
            &&& w.after(m, event, now).worker.held_piece() == Some(task.piece)
            &&& task.download.index == task.piece as int % 0x1_0000_0000
        },
        w.after(m, event, now).worker matches WorkerView::Receiving(task) ==> {
            &&& w.after(m, event, now).worker.held_piece() == Some(task.piece)
            &&& task.download.index == task.piece as int % 0x1_0000_0000
        },
{
    law_steps_keep_workers_sound(w, m, event, now);
    law_steps_leave_the_description_alone(w, m, event, now, w);
    if w.after(m, event, now).worker is Requesting {
        lemma_request_was_just_added(w, m, event, now);
        lemma_request_names_its_piece(w.after(m, event, now), m);
    }
}

/// The request of a sound task names its piece.
proof fn lemma_request_names_its_piece(out: Outcome, m: ManagerView)
    requires
        out.worker is Requesting,
        out.worker.wf(),
        out.worker.works_for(out.manager),
        out.manager.hashes == m.hashes,
        out.manager.piece_length == m.piece_length,
        out.manager.total_size == m.total_size,
        out.manager.total_pieces == m.total_pieces,
        ({
            let task = out.worker->Requesting_0;
            let request = task.download.sent.last();
            &&& task.download.sent.len() > 0
            &&& 0 <= request.len <= 16384
            &&& out.action == ActionView::Write(
                request_bytes(
                    task.download.index,
                    (request.begin % 0x1_0000_0000) as u32,
                    request.len as u32,
                ),
            )
        }),
    ensures
        names_its_piece(out, m),
{
    let task = out.worker->Requesting_0;
    let request = task.download.sent.last();
    law_request_is_framed(
        task.download.index,
        (request.begin % 0x1_0000_0000) as u32,
        request.len as u32,
    );
    if task.download.size <= u32::MAX {
        law_requests_tile_the_piece(task.download.size, task.download.sent);
        let last = task.download.sent.len() - 1;
        assert(task.download.sent[last] == request);
    }
}

/// The request that goes out is the last that was sent.
proof fn lemma_request_was_just_added(w: WorkerView, m: ManagerView, event: EventView, now: u64)
    requires
        w.admits(m, event),
        w.after(m, event, now).worker is Requesting,
    ensures
        ({
            let out = w.after(m, event, now);
            let task = out.worker->Requesting_0;
            let request = task.download.sent.last();
            &&& task.download.sent.len() > 0
            &&& 0 <= request.len <= 16384
            &&& out.action == ActionView::Write(
                request_bytes(
                    task.download.index,
                    (request.begin % 0x1_0000_0000) as u32,
                    request.len as u32,
                ),
            )
        }),
{
    match w {
        WorkerView::Opening => {
            lemma_advanced_request(task_for(m.todo.last(), m), m.with_piece_taken());
        },
        WorkerView::Saving { piece } => {
            let n = m.with_piece_finished();
            lemma_advanced_request(task_for(n.todo.last(), n), n.with_piece_taken());
        },
        WorkerView::Requesting(task) => {
            lemma_advanced_request(task, m);
        },
        WorkerView::Receiving(task) => {
            if let EventView::Data(bytes) = event {
                lemma_advanced_request(
                    TaskView { download: task.download.fed(bytes), ..task },
                    m.with_bytes(task.download.counted()),
                );
            }
        },
        _ => {},
    }
}

/// Going on by a request adds it to those that were sent.
proof fn lemma_advanced_request(task: TaskView, m: ManagerView)
    ensures
        ({
            let out = advanced(task, m);
            out.worker matches WorkerView::Requesting(next) ==> {
                let request = next.download.sent.last();
                &&& next.download.sent.len() > 0
                &&& 0 <= request.len <= 16384
                &&& out.action == ActionView::Write(
                    request_bytes(
                        next.download.index,
                        (request.begin % 0x1_0000_0000) as u32,
                        request.len as u32,
                    ),
                )
            }
        }),
{
    law_request_asks_for_what_follows(task.download.size, task.download.requested());
}

/// On a connection that the client opened it greets, waits five seconds for sixty-eight bytes in
/// answer, whatever they are, and then asks to be served; a greeting that cannot be sent, or no
/// answer in time, ends the work. Until the peer serves nothing changes in the download.
pub proof fn law_greeting_comes_before_the_wish(m: ManagerView, event: EventView, now: u64)
    ensures
        ({
            let out = WorkerView::SendHandshake.after(m, event, now);
            &&& out.manager == m
            &&& event is Done ==> out.worker is AwaitHandshake && out.action == (ActionView::Read {
                len: 68,
                limit: Some(5),
            })
            &&& event is Failed ==> out.worker is Stopped && out.action is Stop
        }),
        ({
            let out = WorkerView::AwaitHandshake.after(m, event, now);
            &&& out.manager == m
            &&& event is TimedOut ==> out.worker is Stopped && out.action is Stop
            &&& event is Data || event is Failed ==> {
                &&& out.worker is SendInterested
                &&& out.action matches ActionView::Write(message)
                &&& message.len() == 5
                &&& be_value(message.subrange(0, 4)) == 1
                &&& message[4] == 2
            }
        }),
{
    law_interested_is_framed();
}

/// The wait to be served lasts fifteen seconds from the wish on: after anything that is not a
/// message, or after a message without a kind, another message is awaited, for five seconds, until
/// they are over, and then the work ends. Nothing changes in the download.
pub proof fn law_wait_lasts_fifteen_seconds(
    m: ManagerView,
    event: EventView,
    since: u64,
    length: int,
    now: u64,
)
    requires
        event matches EventView::Data(bytes) ==> be_value(bytes) == 0,
    ensures
        WorkerView::SendInterested.after(m, event, now) == (Outcome {
            worker: WorkerView::AwaitLength { since: now },
            manager: m,
            action: ActionView::Read { len: 4, limit: Some(5) },
        }),
        ({
            let out = (WorkerView::AwaitLength { since }).after(m, event, now);
            &&& out.manager == m
            &&& now - since < 15_000_000_000 ==> out.worker == (WorkerView::AwaitLength { since })
                && out.action == (ActionView::Read { len: 4, limit: Some(5) })
            &&& now - since >= 15_000_000_000 ==> out.worker is Stopped && out.action is Stop
        }),
        ({
            let out = (WorkerView::SkipMessage { since, len: length }).after(m, event, now);
            &&& out.manager == m
            &&& now - since < 15_000_000_000 ==> out.worker == (WorkerView::AwaitLength { since })
                && out.action == (ActionView::Read { len: 4, limit: Some(5) })
            &&& now - since >= 15_000_000_000 ==> out.worker is Stopped && out.action is Stop
        }),
{
}

/// What a message says while the client waits to be served: its length and its kind are read in
/// turn. By the kind that says so the peer serves: it is counted, and the file is opened. Any other
/// message, and one whose kind could not be read, is passed over, to its end.
pub proof fn law_peer_says_that_it_serves(
    m: ManagerView,
    since: u64,
    length: u32,
    id: u8,
    now: u64,
    later: u64,
)
    requires
        0 < length,
    ensures
        ({
            let first = (WorkerView::AwaitLength { since }).after(
                m,
                EventView::Data(be32(length)),
                now,
            );
            let second = first.worker.after(m, EventView::Data(seq![id]), later);
            let unread = first.worker.after(m, EventView::Failed, later);
            &&& first.manager == m
            &&& first.action == (ActionView::Read { len: 1, limit: None })
            &&& id == 1 ==> {
                &&& second.worker is Opening
                &&& second.manager == (ManagerView { peers: m.peers + 1, ..m })
                &&& second.action == ActionView::Open(m.save_path)
            }
            &&& id != 1 ==> {
                &&& second.worker == (WorkerView::SkipMessage { since, len: length - 1 })
                &&& second.manager == m
                &&& second.action == (ActionView::Read { len: length - 1, limit: None })
            }
            &&& unread.worker == (WorkerView::SkipMessage { since, len: length - 1 })
            &&& unread.manager == m
            &&& unread.action == (ActionView::Read { len: length - 1, limit: None })
        }),
{
    law_be32_round_trip(length);
}

/// Whether the fetching of a piece goes on as it calls for: a request goes out and joins those that
/// were sent; or bytes are awaited, without a limit; or, when the piece is there, it is saved to its
/// place if it has its digest, and goes back on the list, the peer counted out, if not.
pub open spec fn goes_on(out: Outcome, task: TaskView, m: ManagerView) -> bool {
    match task.download.next_step() {
        NextStep::Send(request) => {
            &&& out.worker matches WorkerView::Requesting(next)
            &&& next == (TaskView {
                download: DownloadView {
                    sent: task.download.sent.push(request),
                    ..task.download
                },
                ..task
            })
            &&& out.manager == m
            &&& out.action matches ActionView::Write(message)
            &&& be_value(message.subrange(5, 9)) == task.download.index
            &&& be_value(message.subrange(9, 13)) == request.begin % 0x1_0000_0000
            &&& be_value(message.subrange(13, 17)) == request.len
        },
        NextStep::Receive(n) => {
            &&& out.worker == WorkerView::Receiving(task)
            &&& out.manager == m
            &&& out.action == (ActionView::Read { len: n, limit: None })
        },
        NextStep::Complete => {
            let data = assembled(task.download.size, task.download.blocks);
            if sha1_of(data) == m.hashes[task.piece as int]@ {
                &&& out.worker == (WorkerView::Saving { piece: task.piece })
                &&& out.manager == m
                &&& out.action == (ActionView::Save { offset: task.offset, data })
            } else {
                is_given_up(out, task.piece, m)
            }
        },
    }
}

/// Whether the work ended with the piece back at the end of the list, the peer counted out, and
/// nothing else changed.
pub open spec fn is_given_up(out: Outcome, piece: usize, m: ManagerView) -> bool {
    &&& out.worker is Stopped
    &&& out.action is Stop
    &&& out.manager == (ManagerView { todo: m.todo.push(piece), peers: m.peers - 1, ..m })
}

/// Going on with a piece is as it calls for.
proof fn lemma_advanced_goes_on(task: TaskView, m: ManagerView)
    ensures
        goes_on(advanced(task, m), task, m),
{
    if let NextStep::Send(request) = task.download.next_step() {
        law_request_asks_for_what_follows(task.download.size, task.download.requested());
        law_request_is_framed(
            task.download.index,
            (request.begin % 0x1_0000_0000) as u32,
            request.len as u32,
        );
    }
}

/// The last piece of the list is taken next: once the file is open, and after each piece that was
/// handed out to be saved, which counts as finished however that went. It is fetched from its
/// beginning, by its number and in its length, and belongs where it lies in the file. When nothing
/// is listed, or the file cannot be opened, the work ends and the peer is counted out.
pub proof fn law_last_listed_piece_is_taken_next(
    w: WorkerView,
    m: ManagerView,
    event: EventView,
    now: u64,
)
    requires
        w is Opening || w is Saving,
        w.admits(m, event),
    ensures
        ({
            let out = w.after(m, event, now);
            let n = if w is Saving {
                ManagerView { finished: m.finished + 1, ..m }
            } else {
                m
            };
            if w is Opening && event is Failed || m.todo.len() == 0 {
                &&& out.worker is Stopped
                &&& out.action is Stop
                &&& out.manager == (ManagerView { peers: n.peers - 1, ..n })
            } else {
                let piece = m.todo.last();
                let task = TaskView {
                    piece,
                    offset: piece * m.piece_length,
                    download: DownloadView {
                        index: (piece as int % 0x1_0000_0000) as u32,
                        size: if piece == m.total_pieces - 1 {
                            m.total_size - piece * m.piece_length
                        } else {
                            m.piece_length as int
                        },
                        sent: Seq::empty(),
                        blocks: Seq::empty(),
                        phase: Phase::Length,
                    },
                };
                goes_on(out, task, ManagerView { todo: m.todo.drop_last(), ..n })
            }
        }),
{
    if m.todo.len() > 0 {
        let n = if w is Saving {
            m.with_piece_finished()
        } else {
            m
        };
        lemma_advanced_goes_on(task_for(n.todo.last(), n), n.with_piece_taken());
    }
}

/// The fetching of a piece follows what comes of it. A request that was sent is followed by the next
/// step. Bytes that were read go to the piece, those of a block are counted, and the next step
/// follows. A request that cannot be sent, bytes that cannot be read, and a peer that stops serving
/// put the piece back on the list and end the work.
pub proof fn law_fetching_follows_what_comes(
    task: TaskView,
    m: ManagerView,
    event: EventView,
    now: u64,
)
    ensures
        ({
            let out = WorkerView::Requesting(task).after(m, event, now);
            &&& event is Done ==> goes_on(out, task, m)
            &&& !(event is Done) ==> is_given_up(out, task.piece, m)
        }),
        ({
            let out = WorkerView::Receiving(task).after(m, event, now);
            match event {
                EventView::Data(bytes) => if task.download.chokes() {
                    is_given_up(out, task.piece, m)
                } else {
                    goes_on(
                        out,
                        TaskView { download: task.download.fed(bytes), ..task },
                        ManagerView { downloaded: m.downloaded + task.download.counted(), ..m },
                    )
                },
                _ => is_given_up(out, task.piece, m),
            }
        }),
{
    lemma_advanced_goes_on(task, m);
    if let EventView::Data(bytes) = event {
        lemma_advanced_goes_on(
            TaskView { download: task.download.fed(bytes), ..task },
            m.with_bytes(task.download.counted()),
        );
    }
}

/// A worker that listens between two messages takes in a block by the bytes on the wire: it reads
/// the length, the kind, the piece and the position, and the bytes, in turn; then the block is held
/// at the position that the message gives, its bytes are counted, and the fetching goes on.
pub proof fn law_worker_takes_in_a_block(
    task: TaskView,
    m: ManagerView,
    index: u32,
    begin: u32,
    bytes: Seq<u8>,
    now: u64,
)
    requires
        task.download.phase == Phase::Length,
        9 + bytes.len() <= u32::MAX,
    ensures
        ({
            let w = WorkerView::Receiving(task);
            let a = w.after(m, EventView::Data(be32((9 + bytes.len()) as u32)), now);
            let b = a.worker.after(a.manager, EventView::Data(seq![7u8]), now);
            let c = b.worker.after(b.manager, EventView::Data(be32(index) + be32(begin)), now);
            let d = c.worker.after(c.manager, EventView::Data(bytes), now);
            &&& a.action == (ActionView::Read { len: 1, limit: None })
            &&& b.action == (ActionView::Read { len: 8, limit: None })
            &&& c.action == (ActionView::Read { len: bytes.len() as int, limit: None })
            &&& a.manager == m && b.manager == m && c.manager == m
            &&& goes_on(
                d,
                TaskView {
                    download: DownloadView {
                        blocks: task.download.blocks.push(Block { start: begin as int, bytes }),
                        ..task.download
                    },
                    ..task
                },
                ManagerView { downloaded: m.downloaded + bytes.len(), ..m },
            )
        }),
{
    let first = be32((9 + bytes.len()) as u32);
    let head = be32(index) + be32(begin);
    let v0 = task.download;
    let v1 = v0.fed(first);
    let v2 = v1.fed(seq![7u8]);
    let v3 = v2.fed(head);
    law_block_message_adds_its_block(v0, index, begin, bytes);
    law_fetching_follows_what_comes(task, m, EventView::Data(first), now);
    law_fetching_follows_what_comes(
        TaskView { download: v1, ..task },
        m,
        EventView::Data(seq![7u8]),
        now,
    );
    law_fetching_follows_what_comes(TaskView { download: v2, ..task }, m, EventView::Data(head), now);
    law_fetching_follows_what_comes(
        TaskView { download: v3, ..task },
        m,
        EventView::Data(bytes),
        now,
    );
}

/// A worker is ready for whatever can come of what it is to do: for success and failure, for as many
/// bytes as it wanted to read, and, while the peer does not serve yet, for time running out. Only
/// what cannot be counted, placed or made sense of is left out.
pub proof fn law_worker_is_ready_for_what_can_come(
    m: ManagerView,
    bytes: Seq<u8>,
    since: u64,
    length: u32,
    task: TaskView,
    piece: usize,
)
    ensures
        WorkerView::SendHandshake.admits(m, EventView::Done),
        WorkerView::SendHandshake.admits(m, EventView::Failed),
        WorkerView::AwaitHandshake.admits(m, EventView::Failed),
        WorkerView::AwaitHandshake.admits(m, EventView::TimedOut),
        bytes.len() == 68 ==> WorkerView::AwaitHandshake.admits(m, EventView::Data(bytes)),
        WorkerView::SendInterested.admits(m, EventView::Done),
        WorkerView::SendInterested.admits(m, EventView::Failed),
        (WorkerView::AwaitLength { since }).admits(m, EventView::Failed),
        (WorkerView::AwaitLength { since }).admits(m, EventView::TimedOut),
        bytes.len() == 4 ==> (WorkerView::AwaitLength { since }).admits(m, EventView::Data(bytes)),
        (WorkerView::AwaitId { since, length }).admits(m, EventView::Failed),
        bytes.len() == 1 && m.peers < usize::MAX ==> (WorkerView::AwaitId { since, length }).admits(
            m,
            EventView::Data(bytes),
        ),
        (WorkerView::SkipMessage { since, len: bytes.len() as int }).admits(m, EventView::Failed),
        (WorkerView::SkipMessage { since, len: bytes.len() as int }).admits(
            m,
            EventView::Data(bytes),
        ),
        m.peers > 0 ==> {
            &&& WorkerView::Opening.admits(m, EventView::Failed)
            &&& can_take_next(m) ==> WorkerView::Opening.admits(m, EventView::Done)
            &&& WorkerView::Requesting(task).admits(m, EventView::Done)
            &&& WorkerView::Requesting(task).admits(m, EventView::Failed)
            &&& WorkerView::Receiving(task).admits(m, EventView::Failed)
            &&& bytes.len() == task.download.wanted() && task.download.admits(bytes) && m.downloaded
                + task.download.counted() <= u64::MAX ==> WorkerView::Receiving(task).admits(
                m,
                EventView::Data(bytes),
            )
            &&& can_take_next(m) && m.finished < usize::MAX ==> (WorkerView::Saving { piece }).admits(
                m,
                EventView::Done,
            ) && (WorkerView::Saving { piece }).admits(m, EventView::Failed)
        },
{
}

/// The next piece can be taken when nothing is listed, and when the last of the list is one of the
/// download's pieces, lies in its file and fits in memory.
pub proof fn law_pieces_of_the_download_can_be_taken(m: ManagerView)
    requires
        m.wf(),
        m.total_pieces >= 0,
        laid_out(m.piece_length, m.total_size, m.total_pieces),
        m.piece_length <= isize::MAX,
        m.total_size <= isize::MAX,
        m.total_size < 0x2000_0000_0000_0000,
        m.piece_length < 0x2000_0000_0000_0000,
    ensures
        can_take_next(m),
{
    if m.todo.len() > 0 {
        let i = m.todo.last() as int;
        assert(m.todo.last() == m.todo[m.todo.len() - 1]);
        assert(piece_fits(m.piece_length, m.total_size, m.total_pieces, i));
        assert(0 <= i * m.piece_length) by (nonlinear_arith)
            requires
                0 <= i,
                0 <= m.piece_length,
        ;
    }
}

} // verus!
