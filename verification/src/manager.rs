//! The state of one running download.
use crate::outside::random_u32;
#[allow(unused_imports)]
use crate::pieces::{
    law_scan_lists_what_is_missing, missing_pieces, piece_fits, piece_present,
};
use crate::start::TorrentPlan;
#[allow(unused_imports)]
use crate::text::{decimal, decimal_string};
use vstd::prelude::*;

verus! {

/// One running download. Times are in nanoseconds since a moment of the caller's choice.
#[derive(Debug)]
pub struct DownloadManager {
    pub id: u32,
    pub info_hash: [u8; 20],
    pub file_name: String,
    pub save_path: String,
    pub pieces_todo: Vec<usize>,
    pub total_pieces: usize,
    pub piece_length: usize,
    pub total_size: u64,
    pub finished_count: usize,
    pub bytes_downloaded: u64,
    pub current_speed: u64,
    pub last_tick_bytes: u64,
    pub last_tick_time: u64,
    pub peer_count: usize,
    pub hashes: Vec<[u8; 20]>,
}

/// A running download, as contracts see it.
#[verifier::ext_equal]
pub struct ManagerView {
    pub id: u32,
    pub info_hash: Seq<u8>,
    pub file_name: Seq<char>,
    pub save_path: Seq<char>,
    pub todo: Seq<usize>,
    pub total_pieces: int,
    pub piece_length: usize,
    pub total_size: u64,
    pub finished: int,
    pub downloaded: int,
    pub speed: u64,
    pub tick_bytes: u64,
    pub tick_time: u64,
    pub peers: int,
    pub hashes: Seq<[u8; 20]>,
}

impl View for DownloadManager {
    type V = ManagerView;

    open spec fn view(&self) -> ManagerView {
        ManagerView {
            id: self.id,
            info_hash: self.info_hash@,
            file_name: self.file_name@,
            save_path: self.save_path@,
            todo: self.pieces_todo@,
            total_pieces: self.total_pieces as int,
            piece_length: self.piece_length,
            total_size: self.total_size,
            finished: self.finished_count as int,
            downloaded: self.bytes_downloaded as int,
            speed: self.current_speed,
            tick_bytes: self.last_tick_bytes,
            tick_time: self.last_tick_time,
            peers: self.peer_count as int,
            hashes: self.hashes@,
        }
    }
}

/// How long a tick lasts, in nanoseconds. Rates are computed in single precision, where the
/// thirty-two nanoseconds before a full second already round to it.
pub const TICK: u64 = 999_999_968;

/// Rates above this many bytes per second are shown in megabytes.
pub const MEGABYTE: u64 = 1_048_576;

/// What a rate is shown in.
#[derive(Debug, Clone, Copy, PartialEq, Eq, Structural)]
pub enum SpeedUnit {
    /// Kilobytes per second.
    Kilobytes,
    /// Megabytes per second.
    Megabytes,
}

/// One line of the list of torrents. The share that is done is `finished` of `total`; the rate
/// is `speed` bytes per second, to be shown in `unit`.
#[derive(Debug)]
pub struct TorrentUiData {
    pub id: i32,
    pub name: String,
    pub finished: usize,
    pub total: usize,
    pub speed: u64,
    pub unit: SpeedUnit,
    pub peers: String,
    pub status: String,
}

/// What has come in since the last tick, and in how many nanoseconds.
#[derive(Debug, Clone, Copy, PartialEq, Eq, Structural)]
pub struct SpeedSample {
    pub bytes: u64,
    pub elapsed: u64,
}

/// The difference of two numbers, or nothing where it would be negative.
pub open spec fn minus(a: int, b: int) -> int {
    if a >= b {
        a - b
    } else {
        0
    }
}

/// The signed number with the bits of `id`.
pub open spec fn signed_id(id: u32) -> int {
    if id <= i32::MAX {
        id as int
    } else {
        id - 0x1_0000_0000
    }
}

/// The unsigned number with the bits of `id`.
pub open spec fn unsigned_id(id: i32) -> int {
    if id >= 0 {
        id as int
    } else {
        id + 0x1_0000_0000
    }
}

/// The signed number with the bits of `id`.
pub fn to_signed_id(id: u32) -> (signed: i32)
    ensures
        signed == signed_id(id),
{
    if id <= i32::MAX as u32 {
        id as i32
    } else {
        (id as i64 - 0x1_0000_0000i64) as i32
    }
}

/// The unsigned number with the bits of `id`.
pub fn to_unsigned_id(id: i32) -> (unsigned: u32)
    ensures
        unsigned == unsigned_id(id),
{
    if id >= 0 {
        id as u32
    } else {
        (id as i64 + 0x1_0000_0000i64) as u32
    }
}

/// A copy of a list of digests.
fn copy_hashes(hashes: &Vec<[u8; 20]>) -> (copy: Vec<[u8; 20]>)
    ensures
        copy@ == hashes@,
{
    let mut copy: Vec<[u8; 20]> = Vec::new();
    let mut i: usize = 0;
    while i < hashes.len()
        invariant
            i <= hashes@.len(),
            copy@ == hashes@.take(i as int),
        decreases hashes@.len() - i,
    {
        copy.push(hashes[i]);
        i += 1;
    }
    copy
}

impl ManagerView {
    /// Every piece has a digest, and only pieces that exist are to be fetched.
    pub open spec fn wf(self) -> bool {
        &&& self.hashes.len() == self.total_pieces
        &&& forall|k: int|
            0 <= k < self.todo.len() ==> 0 <= #[trigger] self.todo[k] < self.total_pieces
    }

    /// Whether every piece is there.
    pub open spec fn done(self) -> bool {
        self.finished >= self.total_pieces
    }

    /// Whether a tick is over at `now`.
    pub open spec fn tick_over(self, now: u64) -> bool {
        minus(now as int, self.tick_time as int) >= TICK
    }

    /// How many bytes the finished pieces have, each taken at its nominal length.
    pub open spec fn finished_bytes(self) -> int {
        self.finished * self.piece_length
    }

    /// Whether piece `i` has its place in the file.
    pub open spec fn fits(self, i: int) -> bool {
        piece_fits(self.piece_length, self.total_size, self.total_pieces, i)
    }

    /// The download with its last piece taken off the list.
    pub open spec fn with_piece_taken(self) -> ManagerView {
        ManagerView { todo: self.todo.drop_last(), ..self }
    }

    /// The download with piece `i` put back on the list.
    pub open spec fn with_piece_returned(self, i: usize) -> ManagerView {
        ManagerView { todo: self.todo.push(i), ..self }
    }

    /// The download with one more piece finished.
    pub open spec fn with_piece_finished(self) -> ManagerView {
        ManagerView { finished: self.finished + 1, ..self }
    }

    /// The download with one more peer.
    pub open spec fn with_peer(self) -> ManagerView {
        ManagerView { peers: self.peers + 1, ..self }
    }

    /// The download with one peer less.
    pub open spec fn without_peer(self) -> ManagerView {
        ManagerView { peers: self.peers - 1, ..self }
    }

    /// The download with `n` more bytes counted.
    pub open spec fn with_bytes(self, n: int) -> ManagerView {
        ManagerView { downloaded: self.downloaded + n, ..self }
    }

    /// The download as it starts out.
    pub open spec fn fresh(
        plan: TorrentPlan,
        id: u32,
        todo: Seq<usize>,
        finished: int,
        now: u64,
    ) -> ManagerView {
        ManagerView {
            id,
            info_hash: plan.info_hash@,
            file_name: plan.file_name@,
            save_path: plan.save_path@,
            todo,
            total_pieces: plan.hashes@.len() as int,
            piece_length: plan.piece_length,
            total_size: plan.total_size,
            finished,
            downloaded: finished * plan.piece_length,
            speed: 0,
            tick_bytes: 0,
            tick_time: now,
            peers: 0,
            hashes: plan.hashes@,
        }
    }
}

impl DownloadManager {
    /// A download of which `finished` pieces are there and `todo` are to be fetched, under a
    /// given number.
    pub fn with_id(
        plan: &TorrentPlan,
        id: u32,
        todo: Vec<usize>,
        finished: usize,
        now: u64,
    ) -> (manager: Self)
        requires
            finished * plan.piece_length <= usize::MAX,
        ensures
            manager@ == ManagerView::fresh(*plan, id, todo@, finished as int, now),
    {
        let downloaded: usize = finished * plan.piece_length;
        DownloadManager {
            id,
            info_hash: plan.info_hash,
            file_name: plan.file_name.clone(),
            save_path: plan.save_path.clone(),
            pieces_todo: todo,
            total_pieces: plan.hashes.len(),
            piece_length: plan.piece_length,
            total_size: plan.total_size,
            finished_count: finished,
            bytes_downloaded: downloaded as u64,
            current_speed: 0,
            last_tick_bytes: 0,
            last_tick_time: now,
            peer_count: 0,
            hashes: copy_hashes(&plan.hashes),
        }
    }

    /// A download of which `finished` pieces are there and `todo` are to be fetched, under a
    /// number drawn at random.
    pub fn new(plan: &TorrentPlan, todo: Vec<usize>, finished: usize, now: u64) -> (manager: Self)
        requires
            finished * plan.piece_length <= usize::MAX,
        ensures
            manager@ == ManagerView::fresh(*plan, manager.id, todo@, finished as int, now),
    {
        Self::with_id(plan, random_u32(), todo, finished, now)
    }

    /// What came in since the last tick, where the tick is over at `now`.
    pub fn speed_sample(&self, now: u64) -> (sample: Option<SpeedSample>)
        ensures
            sample is Some <==> self@.tick_over(now),
            sample matches Some(s) ==> {
                &&& s.bytes == minus(self@.downloaded, self@.tick_bytes as int)
                &&& s.elapsed == minus(now as int, self@.tick_time as int)
            },
    {
        let elapsed: u64 = now.saturating_sub(self.last_tick_time);
        if elapsed >= TICK {
            let bytes: u64 = self.bytes_downloaded.saturating_sub(self.last_tick_bytes);
            Some(SpeedSample { bytes, elapsed })
        } else {
            None
        }
    }

    /// Ends the tick, where it is over at `now`: `rate`, the rate of the sample in bytes per
    /// second, becomes the speed, and the next tick starts. Before that nothing changes.
    pub fn update_speed(&mut self, now: u64, rate: u64)
        ensures
            final(self)@ == (if old(self)@.tick_over(now) {
                ManagerView {
                    speed: rate,
                    tick_bytes: old(self)@.downloaded as u64,
                    tick_time: now,
                    ..old(self)@
                }
            } else {
                old(self)@
            }),
    {
        let elapsed: u64 = now.saturating_sub(self.last_tick_time);
        if elapsed >= TICK {
            self.current_speed = rate;
            self.last_tick_bytes = self.bytes_downloaded;
            self.last_tick_time = now;
        }
    }

    /// Whether every piece is there.
    pub fn is_done(&self) -> (done: bool)
        ensures
            done == self@.done(),
    {
        self.finished_count >= self.total_pieces
    }

    /// The download's line in the list of torrents. A finished download has no speed.
    pub fn get_ui_data(&self) -> (line: TorrentUiData)
        ensures
            line.id == signed_id(self.id),
            line.name@ == self@.file_name,
            line.finished == self@.finished,
            line.total == self@.total_pieces,
            line.speed == (if self@.done() {
                0
            } else {
                self@.speed
            }),
            line.unit == (if line.speed > 1024 * 1024 {
                SpeedUnit::Megabytes
            } else {
                SpeedUnit::Kilobytes
            }),
            line.peers@ == decimal(self@.peers as nat),
            line.status@ == (if self@.done() {
                "Ready"@
            } else {
                "Downloading"@
            }),
    {
        let done = self.is_done();
        let speed: u64 = if done {
            0
        } else {
            self.current_speed
        };
        let unit = if speed > MEGABYTE {
            SpeedUnit::Megabytes
        } else {
            SpeedUnit::Kilobytes
        };
        let status = if done {
            "Ready".to_owned()
        } else {
            "Downloading".to_owned()
        };
        TorrentUiData {
            id: to_signed_id(self.id),
            name: self.file_name.clone(),
            finished: self.finished_count,
            total: self.total_pieces,
            speed,
            unit,
            peers: decimal_string(self.peer_count as u64),
            status,
        }
    }

    /// Whether `left` can tell how much is left: the finished pieces, each taken at its nominal
    /// length, are not longer than the contents.
    pub fn can_tell_left(&self) -> (can: bool)
        ensures
            can == (self@.finished_bytes() <= self@.total_size),
    {
        match (self.finished_count as u64).checked_mul(self.piece_length as u64) {
            None => false,
            Some(bytes) => bytes <= self.total_size,
        }
    }

    /// How many bytes are left to fetch.
    pub fn left(&self) -> (bytes: u64)
        requires
            self@.finished_bytes() <= self@.total_size,
        ensures
            bytes == self@.total_size - self@.finished_bytes(),
    {
        assert(0 <= self.finished_count * self.piece_length) by (nonlinear_arith);
        self.total_size - self.finished_count as u64 * self.piece_length as u64
    }

    /// Takes the last piece off the list of those to fetch.
    pub fn take_piece(&mut self) -> (piece: Option<usize>)
        ensures
            old(self)@.todo.len() == 0 ==> piece is None && final(self)@ == old(self)@,
            old(self)@.todo.len() > 0 ==> piece == Some(old(self)@.todo.last()) && final(self)@
                == old(self)@.with_piece_taken(),
    {
        self.pieces_todo.pop()
    }

    /// Puts a piece back on the list.
    pub fn return_piece(&mut self, piece: usize)
        ensures
            final(self)@ == old(self)@.with_piece_returned(piece),
    {
        self.pieces_todo.push(piece);
    }

    /// Counts a finished piece.
    pub fn finish_piece(&mut self)
        requires
            old(self)@.finished < usize::MAX,
        ensures
            final(self)@ == old(self)@.with_piece_finished(),
    {
        self.finished_count = self.finished_count + 1;
    }

    /// Counts bytes that came in.
    pub fn count_bytes(&mut self, n: usize)
        requires
            old(self)@.downloaded + n <= u64::MAX,
        ensures
            final(self)@ == old(self)@.with_bytes(n as int),
    {
        self.bytes_downloaded = self.bytes_downloaded + n as u64;
    }

    /// Counts a peer that serves pieces.
    pub fn peer_joined(&mut self)
        requires
            old(self)@.peers < usize::MAX,
        ensures
            final(self)@ == old(self)@.with_peer(),
    {
        self.peer_count = self.peer_count + 1;
    }

    /// Counts a peer out.
    pub fn peer_left(&mut self)
        requires
            old(self)@.peers > 0,
        ensures
            final(self)@ == old(self)@.without_peer(),
    {
        self.peer_count = self.peer_count - 1;
    }
}

/// The number that the list of torrents shows leads back to the torrent it stands for.
pub proof fn law_shown_id_leads_back(id: u32)
    ensures
        i32::MIN <= signed_id(id) <= i32::MAX,
        unsigned_id(signed_id(id) as i32) == id,
{
}

/// Two torrents with different numbers are shown under different numbers.
pub proof fn law_shown_ids_differ(a: u32, b: u32)
    requires
        signed_id(a) == signed_id(b),
    ensures
        a == b,
{
}

/// A piece that is taken and put back leaves the download as it was.
pub proof fn law_returning_undoes_taking(m: ManagerView)
    requires
        m.todo.len() > 0,
    ensures
        m.with_piece_taken().with_piece_returned(m.todo.last()) == m,
{
    assert(m.todo.drop_last().push(m.todo.last()) == m.todo);
}

/// Whether the pieces of a download are accounted for when `held` of them are in the hands of
/// peers: each is finished, to be fetched, or held.
pub open spec fn accounted(m: ManagerView, held: int) -> bool {
    m.finished + m.todo.len() + held == m.total_pieces
}

/// A download starts out with every piece accounted for, when each is either there or listed.
pub proof fn law_fresh_download_is_accounted_for(
    plan: TorrentPlan,
    id: u32,
    todo: Seq<usize>,
    finished: int,
    now: u64,
)
    requires
        todo.len() + finished == plan.hashes@.len(),
        forall|k: int| 0 <= k < todo.len() ==> (#[trigger] todo[k]) < plan.hashes@.len(),
    ensures
        ManagerView::fresh(plan, id, todo, finished, now).wf(),
        accounted(ManagerView::fresh(plan, id, todo, finished, now), 0),
{
}

/// A download that is taken up again, by what was read of its file, has every piece accounted for:
/// those that are there count as finished, the others are listed, each once.
pub proof fn law_resumed_download_is_accounted_for(
    plan: TorrentPlan,
    id: u32,
    reads: Seq<Option<Seq<u8>>>,
    now: u64,
)
    requires
        reads.len() == plan.hashes@.len() <= usize::MAX,
    ensures
        ({
            let todo = missing_pieces(reads, plan.hashes@);
            let m = ManagerView::fresh(plan, id, todo, reads.len() - todo.len(), now);
            &&& m.wf()
            &&& accounted(m, 0)
            &&& m.todo.no_duplicates()
            &&& m.done() <==> forall|i: int|
                0 <= i < reads.len() ==> piece_present(#[trigger] reads[i], plan.hashes@[i])
        }),
{
    let hashes = plan.hashes@;
    let todo = missing_pieces(reads, hashes);
    law_scan_lists_what_is_missing(reads, hashes);
    assert forall|k: int| 0 <= k < todo.len() implies (#[trigger] todo[k]) < hashes.len() by {
        assert(todo.contains(todo[k]));
    }
    if todo.len() > 0 {
        assert(todo.contains(todo[0]));
        assert(!piece_present(reads[todo[0] as int], hashes[todo[0] as int]));
    } else {
        assert forall|i: int| 0 <= i < reads.len() implies piece_present(
            #[trigger] reads[i],
            hashes[i],
        ) by {
            assert(!todo.contains(i as usize));
        }
    }
}

/// No piece is lost or counted twice on its way: taking one, putting it back and finishing it
/// keep the pieces accounted for, and the list valid.
pub proof fn law_pieces_stay_accounted_for(m: ManagerView, held: int, i: usize)
    requires
        m.wf(),
        accounted(m, held),
        0 <= i < m.total_pieces,
    ensures
        m.todo.len() > 0 ==> accounted(m.with_piece_taken(), held + 1) && m.with_piece_taken().wf()
            && m.todo.last() < m.total_pieces,
        accounted(m.with_piece_returned(i), held - 1) && m.with_piece_returned(i).wf(),
        accounted(m.with_piece_finished(), held - 1) && m.with_piece_finished().wf(),
        held == 0 && m.todo.len() == 0 ==> m.done(),
{
    if m.todo.len() > 0 {
        assert forall|k: int| 0 <= k < m.with_piece_taken().todo.len() implies 0
            <= #[trigger] m.with_piece_taken().todo[k] < m.total_pieces by {
            assert(m.with_piece_taken().todo[k] == m.todo[k]);
        }
        assert(m.todo.last() == m.todo[m.todo.len() - 1]);
    }
}

/// A download is shown by what it counts, as it counts it.
pub proof fn law_view_shows_the_counters(manager: DownloadManager)
    ensures
        manager@.id == manager.id,
        manager@.info_hash == manager.info_hash@,
        manager@.file_name == manager.file_name@,
        manager@.save_path == manager.save_path@,
        manager@.todo == manager.pieces_todo@,
        manager@.total_pieces == manager.total_pieces,
        manager@.piece_length == manager.piece_length,
        manager@.total_size == manager.total_size,
        manager@.finished == manager.finished_count,
        manager@.downloaded == manager.bytes_downloaded,
        manager@.speed == manager.current_speed,
        manager@.tick_bytes == manager.last_tick_bytes,
        manager@.tick_time == manager.last_tick_time,
        manager@.peers == manager.peer_count,
        manager@.hashes == manager.hashes@,
{
}

/// A download is done exactly when as many pieces are finished as it has, whatever else it counts:
/// while every piece is finished, listed or held, it is done when none is listed and none is held.
pub proof fn law_done_when_nothing_is_left(m: ManagerView, other: ManagerView, held: int)
    ensures
        m.finished < m.total_pieces ==> !m.done(),
        m.finished >= m.total_pieces ==> m.done(),
        m.finished == other.finished && m.total_pieces == other.total_pieces ==> m.done()
            == other.done(),
        m.finished + m.todo.len() + held == m.total_pieces && held >= 0 ==> (m.done() <==> held
            == 0 && m.todo.len() == 0),
{
}

/// A tick is over after a second, short of the thirty-two nanoseconds that single precision does
/// not tell from it, and never before; a clock that runs back ends none. Where it is over at some
/// time it is over at every later one.
pub proof fn law_tick_lasts_a_second(m: ManagerView, now: u64, later: u64)
    requires
        now <= later,
    ensures
        m.tick_over(now) <==> now - m.tick_time >= 1_000_000_000 - 32,
        now < m.tick_time ==> !m.tick_over(now),
        m.tick_over(now) ==> m.tick_over(later),
{
}

/// A difference is never negative: it makes up for what the smaller number lacks, and is nothing
/// where there is nothing to make up for.
pub proof fn law_difference_is_not_negative(a: int, b: int)
    ensures
        minus(a, b) >= 0,
        a >= b ==> b + minus(a, b) == a,
        a <= b ==> minus(a, b) == 0,
{
}

/// Each count changes by what happened and leaves every other alone: bytes add up, a peer that
/// leaves undoes one that came, a piece is taken from the end of the list and put back there, and a
/// finished piece counts as one, at its nominal length.
pub proof fn law_counts_follow_what_happens(m: ManagerView, piece: usize, a: int, b: int)
    ensures
        m.with_bytes(a).downloaded - m.downloaded == a,
        m.with_bytes(a).with_bytes(b) == m.with_bytes(a + b),
        m.with_bytes(a) == (ManagerView { downloaded: m.with_bytes(a).downloaded, ..m }),
        m.with_peer().peers - m.peers == 1,
        m.with_peer().without_peer() == m,
        m.with_peer() == (ManagerView { peers: m.with_peer().peers, ..m }),
        m.with_piece_finished().finished - m.finished == 1,
        m.with_piece_finished() == (ManagerView {
            finished: m.with_piece_finished().finished,
            ..m
        }),
        m.with_piece_finished().finished_bytes() - m.finished_bytes() == m.piece_length,
        m.finished == 0 ==> m.finished_bytes() == 0,
        m.with_piece_returned(piece).todo == m.todo.push(piece),
        m.todo.len() > 0 ==> m.with_piece_taken() == (ManagerView { todo: m.todo.drop_last(), ..m }),
        m.with_piece_returned(piece).with_piece_taken() == m,
        m.with_piece_returned(piece) == (ManagerView {
            todo: m.with_piece_returned(piece).todo,
            ..m
        }),
        m.fits(a) == piece_fits(m.piece_length, m.total_size, m.total_pieces, a),
{
    assert((m.finished + 1) * m.piece_length == m.finished * m.piece_length + m.piece_length)
        by (nonlinear_arith);
    assert(m.todo.push(piece).drop_last() == m.todo);
}

/// A download starts out as its plan says, with the pieces that are there counted at their nominal
/// length, and with no speed and no peers.
pub proof fn law_download_starts_as_planned(
    plan: TorrentPlan,
    id: u32,
    todo: Seq<usize>,
    finished: int,
    now: u64,
)
    ensures
        ({
            let m = ManagerView::fresh(plan, id, todo, finished, now);
            &&& m.id == id
            &&& m.info_hash == plan.info_hash@
            &&& m.file_name == plan.file_name@
            &&& m.save_path == plan.save_path@
            &&& m.todo == todo
            &&& m.hashes == plan.hashes@
            &&& m.total_pieces == m.hashes.len()
            &&& m.piece_length == plan.piece_length
            &&& m.total_size == plan.total_size
            &&& m.finished == finished
            &&& m.downloaded == m.finished_bytes()
            &&& m.speed == 0 && m.peers == 0 && m.tick_bytes == 0
            &&& m.tick_time == now
        }),
{
}

/// The shown number and the torrent's own have the same 32 bits: they are equal where both can be,
/// and differ by two to the power of thirty-two else.
pub proof fn law_shown_id_has_the_same_bits(id: u32, shown: i32)
    ensures
        id < 0x8000_0000 ==> signed_id(id) == id,
        id >= 0x8000_0000 ==> id - signed_id(id) == 0x1_0000_0000,
        shown >= 0 ==> unsigned_id(shown) == shown,
        shown < 0 ==> unsigned_id(shown) - shown == 0x1_0000_0000,
{
}

} // verus!
