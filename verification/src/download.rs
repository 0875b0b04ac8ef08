//! Fetching one piece from one peer.
//!
//! A piece is asked for in blocks. Up to twelve requests are under way at a time; blocks come back
//! in any order, between other messages. Once as many bytes came in as the piece has, its digest
//! decides.
use crate::bytes::{read_be32, same_bytes};
#[allow(unused_imports)]
use crate::bytes::{be32, be_value, law_be32_round_trip, lemma_be_value_bound};
#[allow(unused_imports)]
use crate::outside::{hashable, sha1_digest, sha1_of};
use crate::wire::request;
#[allow(unused_imports)]
use crate::wire::{law_request_is_framed, request_bytes};
use vstd::prelude::*;

verus! {

/// The largest block to ask for.
pub const BLOCK_LEN: u32 = 16384;

/// How many requests may be under way.
pub const PIPELINE: i32 = 12;

/// Why a piece was not fetched.
#[derive(Debug, Clone, Copy, PartialEq, Eq, Structural)]
pub enum DownloadError {
    /// The peer stopped serving.
    Choke,
    /// The bytes that came in are not the piece.
    HashFail,
}

/// The words for an error.
pub open spec fn error_text(error: DownloadError) -> Seq<char> {
    match error {
        DownloadError::Choke => "Choke"@,
        DownloadError::HashFail => "Hash fail"@,
    }
}

impl DownloadError {
    /// The words for this error.
    pub fn message(&self) -> (text: String)
        ensures
            text@ == error_text(*self),
    {
        match self {
            DownloadError::Choke => "Choke".to_owned(),
            DownloadError::HashFail => "Hash fail".to_owned(),
        }
    }
}

/// What is to be read next from the peer.
#[derive(Debug, Clone, Copy, PartialEq, Eq, Structural)]
pub enum Phase {
    /// The length of a message.
    Length,
    /// The kind of a message of `length` bytes.
    Id { length: u32 },
    /// The piece and the position that a block belongs to, in a message of `length` bytes.
    BlockHead { length: u32 },
    /// The `len` bytes of a block that belongs at `start`.
    Block { start: usize, len: usize },
    /// The `len` bytes that are left of a message that carries no block.
    Skip { len: usize, choke: bool },
}

/// A block that was asked for.
#[verifier::ext_equal]
pub struct BlockRequest {
    pub begin: int,
    pub len: int,
}

/// A block that came in.
#[verifier::ext_equal]
pub struct Block {
    pub start: int,
    pub bytes: Seq<u8>,
}

/// How many bytes were asked for.
pub open spec fn total_requested(sent: Seq<BlockRequest>) -> int
    decreases sent.len(),
{
    if sent.len() == 0 {
        0
    } else {
        total_requested(sent.drop_last()) + sent.last().len
    }
}

/// How many bytes came in.
pub open spec fn total_received(blocks: Seq<Block>) -> int
    decreases blocks.len(),
{
    if blocks.len() == 0 {
        0
    } else {
        total_received(blocks.drop_last()) + blocks.last().bytes.len()
    }
}

/// What a buffer of `size` zeros becomes when the blocks are written into it one after the other.
pub open spec fn assembled(size: int, blocks: Seq<Block>) -> Seq<u8>
    decreases blocks.len(),
{
    if blocks.len() == 0 {
        Seq::new(size as nat, |i: int| 0u8)
    } else {
        let before = assembled(size, blocks.drop_last());
        let block = blocks.last();
        Seq::new(
            size as nat,
            |i: int|
                if block.start <= i < block.start + block.bytes.len() {
                    block.bytes[i - block.start]
                } else {
                    before[i]
                },
        )
    }
}

/// The buffer keeps its length.
pub proof fn lemma_assembled_len(size: int, blocks: Seq<Block>)
    requires
        0 <= size,
    ensures
        assembled(size, blocks).len() == size,
{
}

/// The request that follows when `requested` bytes of a piece were asked for: what is left of the
/// piece, by the number that 32 bits hold of it, but not more than a full block.
pub open spec fn next_request(size: int, requested: int) -> BlockRequest {
    let left = (size - requested) % 0x1_0000_0000;
    BlockRequest {
        begin: requested,
        len: if left < BLOCK_LEN {
            left
        } else {
            BLOCK_LEN as int
        },
    }
}

/// Whether these are the first requests for a piece: each asks for what follows, and none was sent
/// after the piece was asked for.
pub open spec fn scheduled(size: int, sent: Seq<BlockRequest>) -> bool
    decreases sent.len(),
{
    sent.len() == 0 || {
        let before = sent.drop_last();
        &&& scheduled(size, before)
        &&& total_requested(before) < size
        &&& sent.last() == next_request(size, total_requested(before))
    }
}

/// The fetching of a piece, as contracts see it: what was sent, what came in, and what is to be
/// read next.
#[verifier::ext_equal]
pub struct DownloadView {
    pub index: u32,
    pub size: int,
    pub sent: Seq<BlockRequest>,
    pub blocks: Seq<Block>,
    pub phase: Phase,
}

/// What is to be done next, as contracts see it.
pub enum NextStep {
    Send(BlockRequest),
    Receive(int),
    Complete,
}

impl DownloadView {
    /// How many bytes were asked for.
    pub open spec fn requested(self) -> int {
        total_requested(self.sent)
    }

    /// How many bytes came in.
    pub open spec fn received(self) -> int {
        total_received(self.blocks)
    }

    /// By how much the requests outnumber the blocks that came in.
    pub open spec fn inflight(self) -> int {
        self.sent.len() - self.blocks.len()
    }

    /// The piece, as far as it came in.
    pub open spec fn content(self) -> Seq<u8> {
        assembled(self.size, self.blocks)
    }

    /// The requests are those that the piece calls for, no more than twelve are under way, every
    /// block that came in lies in the piece, and so does the one that is coming in.
    pub open spec fn wf(self) -> bool {
        &&& 0 <= self.size
        &&& scheduled(self.size, self.sent)
        &&& self.inflight() <= PIPELINE
        &&& forall|k: int|
            0 <= k < self.blocks.len() ==> 0 <= (#[trigger] self.blocks[k]).start
                && self.blocks[k].start + self.blocks[k].bytes.len() <= self.size
        &&& self.phase != Phase::Length ==> self.received() < self.size
        &&& match self.phase {
            Phase::Length => true,
            Phase::Id { length } => length > 0,
            Phase::BlockHead { length } => length > 0,
            Phase::Block { start, len } => start + len <= self.size,
            Phase::Skip { len, choke } => true,
        }
    }

    /// How many bytes are to be read next.
    pub open spec fn wanted(self) -> int {
        match self.phase {
            Phase::Length => 4,
            Phase::Id { length } => 1,
            Phase::BlockHead { length } => 8,
            Phase::Block { start, len } => len as int,
            Phase::Skip { len, choke } => len as int,
        }
    }

    /// What is to be done next. Between two messages requests are sent while fewer than twelve are
    /// under way and there is something left to ask for.
    pub open spec fn next_step(self) -> NextStep {
        if self.phase != Phase::Length {
            NextStep::Receive(self.wanted())
        } else if self.received() >= self.size {
            NextStep::Complete
        } else if self.inflight() < PIPELINE && self.requested() < self.size {
            NextStep::Send(next_request(self.size, self.requested()))
        } else {
            NextStep::Receive(4)
        }
    }

    /// The fetching after the next step was taken.
    pub open spec fn stepped(self) -> DownloadView {
        match self.next_step() {
            NextStep::Send(request) => DownloadView { sent: self.sent.push(request), ..self },
            _ => self,
        }
    }

    /// Whether bytes that were read make sense: a block is at least as long as its head and lies
    /// in the piece, and the blocks that nobody asked for are not too many to count.
    pub open spec fn admits(self, bytes: Seq<u8>) -> bool {
        match self.phase {
            Phase::BlockHead { length } => {
                &&& length >= 9
                &&& be_value(bytes.subrange(4, 8)) + (length - 9) <= self.size
            },
            Phase::Block { start, len } => self.inflight() > i32::MIN,
            _ => true,
        }
    }

    /// The fetching after bytes were read.
    pub open spec fn fed(self, bytes: Seq<u8>) -> DownloadView {
        match self.phase {
            Phase::Length => DownloadView {
                phase: if be_value(bytes) == 0 {
                    Phase::Length
                } else {
                    Phase::Id { length: be_value(bytes) as u32 }
                },
                ..self
            },
            Phase::Id { length } => DownloadView {
                phase: if bytes[0] == 7 {
                    Phase::BlockHead { length }
                } else {
                    Phase::Skip { len: (length - 1) as usize, choke: bytes[0] == 0 }
                },
                ..self
            },
            Phase::BlockHead { length } => DownloadView {
                phase: Phase::Block {
                    start: be_value(bytes.subrange(4, 8)) as usize,
                    len: (length - 9) as usize,
                },
                ..self
            },
            Phase::Block { start, len } => DownloadView {
                blocks: self.blocks.push(Block { start: start as int, bytes }),
                phase: Phase::Length,
                ..self
            },
            Phase::Skip { len, choke } => DownloadView { phase: Phase::Length, ..self },
        }
    }

    /// Whether the bytes that are being read end the message by which the peer stops serving.
    pub open spec fn chokes(self) -> bool {
        self.phase matches Phase::Skip { len, choke } && choke
    }

    /// How many of the bytes that are being read belong to a block.
    pub open spec fn counted(self) -> int {
        match self.phase {
            Phase::Block { start, len } => len as int,
            _ => 0,
        }
    }

    /// The fetching of a piece before anything was sent.
    pub open spec fn fresh(index: u32, size: int) -> DownloadView {
        DownloadView {
            index,
            size,
            sent: Seq::empty(),
            blocks: Seq::empty(),
            phase: Phase::Length,
        }
    }
}

/// What is to be done next.
#[derive(Debug)]
pub enum DownloadAction {
    /// Send these bytes.
    Send(Vec<u8>),
    /// Read this many bytes.
    Receive(usize),
    /// Nothing: as many bytes came in as the piece has.
    Complete,
}

/// Whether an action is the one that a step calls for.
pub open spec fn carries_out(action: DownloadAction, step: NextStep, index: u32) -> bool {
    match step {
        NextStep::Send(request) => action matches DownloadAction::Send(bytes) && bytes@
            == request_bytes(
            index,
            (request.begin % 0x1_0000_0000) as u32,
            request.len as u32,
        ),
        NextStep::Receive(n) => action matches DownloadAction::Receive(m) && m == n,
        NextStep::Complete => action is Complete,
    }
}

/// The fetching of one piece.
pub struct PieceDownload {
    index: u32,
    data: Vec<u8>,
    requested: usize,
    received: usize,
    inflight: i32,
    phase: Phase,
    sent: Ghost<Seq<BlockRequest>>,
    blocks: Ghost<Seq<Block>>,
}

impl View for PieceDownload {
    type V = DownloadView;

    closed spec fn view(&self) -> DownloadView {
        DownloadView {
            index: self.index,
            size: self.data@.len() as int,
            sent: self.sent@,
            blocks: self.blocks@,
            phase: self.phase,
        }
    }
}

impl PieceDownload {
    /// The view is well-formed and the fields agree with it.
    pub closed spec fn wf(&self) -> bool {
        &&& self@.wf()
        &&& self.data@ == self@.content()
        &&& self.data@.len() <= isize::MAX
        &&& hashable(self.data@.len())
        &&& self.requested == self@.requested()
        &&& self.received == self@.received()
        &&& self.inflight == self@.inflight()
    }

    /// What the fields say of the fetching holds of its view.
    pub proof fn lemma_wf(&self)
        requires
            self.wf(),
        ensures
            self@.wf(),
            self@.size <= isize::MAX,
            hashable(self@.size as nat),
            self@.received() <= usize::MAX,
            i32::MIN <= self@.inflight() <= PIPELINE,
    {
    }

    /// Whether a piece of `size` bytes can be held and hashed.
    pub fn can_hold(size: usize) -> (can: bool)
        ensures
            can == (size <= isize::MAX && hashable(size as nat)),
    {
        size <= isize::MAX as usize && size as u64 <= u64::MAX / 8
    }

    /// Starts to fetch piece `index`, which has `size` bytes.
    pub fn new(index: u32, size: usize) -> (download: Self)
        requires
            size <= isize::MAX,
            hashable(size as nat),
        ensures
            download.wf(),
            download@ == DownloadView::fresh(index, size as int),
    {
        let data: Vec<u8> = vec![0u8; size];
        let download = PieceDownload {
            index,
            data,
            requested: 0,
            received: 0,
            inflight: 0,
            phase: Phase::Length,
            sent: Ghost(Seq::empty()),
            blocks: Ghost(Seq::empty()),
        };
        assert(download.data@ == download@.content());
        download
    }

    /// Says what is to be done next, and takes it as done where it is to send a request.
    pub fn next_action(&mut self) -> (action: DownloadAction)
        requires
            old(self).wf(),
        ensures
            final(self).wf(),
            final(self)@ == old(self)@.stepped(),
            carries_out(action, old(self)@.next_step(), old(self)@.index),
    {
        if self.phase != Phase::Length {
            return DownloadAction::Receive(self.wanted());
        }
        let size: usize = self.data.len();
        if self.received >= size {
            return DownloadAction::Complete;
        }
        if self.inflight < PIPELINE && self.requested < size {
            let begin: u32 = (self.requested as u64 % 0x1_0000_0000) as u32;
            let left: u32 = ((size - self.requested) as u64 % 0x1_0000_0000) as u32;
            let len: u32 = if left < BLOCK_LEN {
                left
            } else {
                BLOCK_LEN
            };
            let ghost before = self.sent@;
            let ghost next = next_request(size as int, self.requested as int);
            assert(before.push(next).drop_last() =~= before);
            self.sent = Ghost(before.push(next));
            self.requested = self.requested + len as usize;
            self.inflight = self.inflight + 1;
            return DownloadAction::Send(request(self.index, begin, len));
        }
        DownloadAction::Receive(4)
    }

    /// How many bytes are to be read next.
    pub fn wanted(&self) -> (n: usize)
        requires
            self.wf(),
        ensures
            n == self@.wanted(),
    {
        match self.phase {
            Phase::Length => 4,
            Phase::Id { .. } => 1,
            Phase::BlockHead { .. } => 8,
            Phase::Block { len, .. } => len,
            Phase::Skip { len, .. } => len,
        }
    }

    /// How many of the bytes that are being read belong to a block.
    pub fn counts(&self) -> (n: usize)
        requires
            self.wf(),
        ensures
            n == self@.counted(),
    {
        match self.phase {
            Phase::Block { len, .. } => len,
            _ => 0,
        }
    }

    /// Whether bytes that were read make sense.
    pub fn accepts(&self, bytes: &[u8]) -> (yes: bool)
        requires
            self.wf(),
            bytes@.len() == self@.wanted(),
        ensures
            yes == self@.admits(bytes@),
    {
        match self.phase {
            Phase::BlockHead { length } => {
                length >= 9 && read_be32(bytes, 4) as u64 + (length - 9) as u64
                    <= self.data.len() as u64
            },
            Phase::Block { .. } => self.inflight > i32::MIN,
            _ => true,
        }
    }

    /// Takes in bytes that were read, as many as were wanted, and says how many of them belong to
    /// a block. It is an error when the peer stopped serving.
    pub fn feed(&mut self, bytes: &[u8]) -> (counted: Result<usize, DownloadError>)
        requires
            old(self).wf(),
            old(self)@.next_step() is Receive,
            bytes@.len() == old(self)@.wanted(),
            old(self)@.admits(bytes@),
        ensures
            final(self).wf(),
            final(self)@ == old(self)@.fed(bytes@),
            counted == (if old(self)@.chokes() {
                Err(DownloadError::Choke)
            } else {
                Ok(old(self)@.counted() as usize)
            }),
    {
        match self.phase {
            Phase::Length => {
                assert(bytes@.subrange(0, 4) == bytes@);
                let length: u32 = read_be32(bytes, 0);
                if length != 0 {
                    self.phase = Phase::Id { length };
                }
                Ok(0)
            },
            Phase::Id { length } => {
                let id: u8 = bytes[0];
                if id == 7 {
                    self.phase = Phase::BlockHead { length };
                } else {
                    self.phase = Phase::Skip { len: (length - 1) as usize, choke: id == 0 };
                }
                Ok(0)
            },
            Phase::BlockHead { length } => {
                let start: u32 = read_be32(bytes, 4);
                self.phase = Phase::Block { start: start as usize, len: (length - 9) as usize };
                Ok(0)
            },
            Phase::Block { start, len } => {
                self.store(start, bytes);
                Ok(len)
            },
            Phase::Skip { choke, .. } => {
                self.phase = Phase::Length;
                if choke {
                    Err(DownloadError::Choke)
                } else {
                    Ok(0)
                }
            },
        }
    }

    /// Writes a block to its place.
    fn store(&mut self, start: usize, bytes: &[u8])
        requires
            old(self).wf(),
            old(self)@.phase == (Phase::Block { start, len: bytes@.len() as usize }),
            bytes@.len() == old(self)@.wanted(),
            old(self)@.inflight() > i32::MIN,
        ensures
            final(self).wf(),
            final(self)@ == old(self)@.fed(bytes@),
    {
        let ghost block = Block { start: start as int, bytes: bytes@ };
        let ghost before = self.blocks@;
        let ghost held = self.data@;
        let ghost size = self.data@.len() as int;
        let len: usize = bytes.len();
        let mut i: usize = 0;
        while i < len
            invariant
                i <= len,
                len == bytes@.len(),
                start + len <= size,
                self.data@.len() == size,
                forall|k: int|
                    0 <= k < size ==> self.data@[k] == (if start <= k < start + i {
                        bytes@[k - start]
                    } else {
                        held[k]
                    }),
                self.index == old(self).index,
                self.requested == old(self).requested,
                self.received == old(self).received,
                self.inflight == old(self).inflight,
                self.phase == old(self).phase,
                self.sent == old(self).sent,
                self.blocks == old(self).blocks,
                size == old(self).data@.len(),
                size <= isize::MAX,
            decreases len - i,
        {
            self.data[start + i] = bytes[i];
            i += 1;
        }
        self.blocks = Ghost(before.push(block));
        self.received = self.received + len;
        self.inflight = self.inflight - 1;
        self.phase = Phase::Length;
        proof {
            assert(before.push(block).drop_last() =~= before);
            assert(self.data@ =~= self@.content());
        }
    }

    /// Gives the piece out, once as many bytes came in as it has, if its digest is `hash`.
    pub fn finish(self, hash: &[u8]) -> (piece: Result<Vec<u8>, DownloadError>)
        requires
            self.wf(),
            self@.next_step() is Complete,
        ensures
            sha1_of(self@.content()) == hash@ ==> (piece matches Ok(data) && data@
                == self@.content()),
            sha1_of(self@.content()) != hash@ ==> piece == Err::<Vec<u8>, DownloadError>(
                DownloadError::HashFail,
            ),
    {
        let digest = sha1_digest(self.data.as_slice());
        if same_bytes(&digest, hash) {
            Ok(self.data)
        } else {
            Err(DownloadError::HashFail)
        }
    }
}

/// The requests for a piece tile it: the first starts at the beginning, each starts where the one
/// before ends, all but the last are full blocks of 16384 bytes, and the last ends where the piece
/// does. (A piece whose length takes more than 32 bits cannot be addressed by requests.)
pub proof fn law_requests_tile_the_piece(size: int, sent: Seq<BlockRequest>)
    requires
        0 <= size <= u32::MAX,
        scheduled(size, sent),
    ensures
        forall|k: int|
            0 <= k < sent.len() ==> {
                &&& (#[trigger] sent[k]).begin == 16384 * k
                &&& 0 < sent[k].len <= 16384
                &&& sent[k].begin + sent[k].len <= size
                &&& sent[k].len == 16384 || sent[k].begin + sent[k].len == size
            },
        total_requested(sent) == (if 16384 * sent.len() <= size {
            16384int * sent.len()
        } else {
            size
        }),
    decreases sent.len(),
{
    if sent.len() > 0 {
        let before = sent.drop_last();
        law_requests_tile_the_piece(size, before);
        assert forall|k: int| 0 <= k < sent.len() implies {
            &&& (#[trigger] sent[k]).begin == 16384 * k
            &&& 0 < sent[k].len <= 16384
            &&& sent[k].begin + sent[k].len <= size
            &&& sent[k].len == 16384 || sent[k].begin + sent[k].len == size
        } by {
            if k < before.len() {
                assert(sent[k] == before[k]);
            } else {
                assert(sent[k] == sent.last());
            }
        }
    }
}

/// Whether a block holds what the piece has in its place.
pub open spec fn honest(piece: Seq<u8>, block: Block) -> bool {
    &&& 0 <= block.start
    &&& block.start + block.bytes.len() <= piece.len()
    &&& block.bytes == piece.subrange(block.start, block.start + block.bytes.len())
}

/// Whether some block covers position `i` of the piece.
pub open spec fn covered(blocks: Seq<Block>, i: int) -> bool {
    exists|j: int|
        0 <= j < blocks.len() && (#[trigger] blocks[j]).start <= i < blocks[j].start
            + blocks[j].bytes.len()
}

/// Honest blocks put the piece together wherever they reach, in whatever order they come and
/// however often.
pub proof fn law_honest_blocks_agree_with_the_piece(piece: Seq<u8>, blocks: Seq<Block>)
    requires
        forall|j: int| 0 <= j < blocks.len() ==> honest(piece, #[trigger] blocks[j]),
    ensures
        assembled(piece.len() as int, blocks).len() == piece.len(),
        forall|i: int|
            0 <= i < piece.len() && covered(blocks, i) ==> #[trigger] assembled(
                piece.len() as int,
                blocks,
            )[i] == piece[i],
    decreases blocks.len(),
{
    if blocks.len() > 0 {
        let size = piece.len() as int;
        let before = blocks.drop_last();
        let last = blocks.last();
        assert forall|j: int| 0 <= j < before.len() implies honest(
            piece,
            #[trigger] before[j],
        ) by {
            assert(before[j] == blocks[j]);
        }
        law_honest_blocks_agree_with_the_piece(piece, before);
        assert(honest(piece, blocks[blocks.len() - 1]));
        assert forall|i: int| 0 <= i < piece.len() && covered(blocks, i) implies #[trigger] assembled(
            size,
            blocks,
        )[i] == piece[i] by {
            if !(last.start <= i < last.start + last.bytes.len()) {
                let j = choose|j: int|
                    0 <= j < blocks.len() && (#[trigger] blocks[j]).start <= i < blocks[j].start
                        + blocks[j].bytes.len();
                assert(before[j] == blocks[j]);
                assert(covered(before, i));
                assert(assembled(size, before)[i] == piece[i]);
            } else {
                assert(last.bytes[i - last.start] == piece.subrange(
                    last.start,
                    last.start + last.bytes.len(),
                )[i - last.start]);
            }
        }
    }
}

/// The block that answers a request.
pub open spec fn answer(piece: Seq<u8>, request: BlockRequest) -> Block {
    Block {
        start: request.begin,
        bytes: piece.subrange(request.begin, request.begin + request.len),
    }
}

/// The blocks that answer a list of requests.
pub open spec fn answers(piece: Seq<u8>, sent: Seq<BlockRequest>) -> Seq<Block> {
    Seq::new(sent.len(), |k: int| answer(piece, sent[k]))
}

/// Taking one block away takes its length away.
proof fn lemma_total_without(blocks: Seq<Block>, i: int)
    requires
        0 <= i < blocks.len(),
    ensures
        total_received(blocks) == total_received(blocks.remove(i)) + blocks[i].bytes.len(),
    decreases blocks.len(),
{
    let last = blocks.len() - 1;
    if i == last {
        assert(blocks.remove(i) == blocks.drop_last());
    } else {
        lemma_total_without(blocks.drop_last(), i);
        assert(blocks.remove(i).drop_last() == blocks.drop_last().remove(i));
        assert(blocks.remove(i).last() == blocks.last());
    }
}

/// The order of the blocks does not matter to their length.
proof fn lemma_total_of_reordered(a: Seq<Block>, b: Seq<Block>)
    requires
        a.to_multiset() == b.to_multiset(),
    ensures
        total_received(a) == total_received(b),
    decreases a.len(),
{
    broadcast use vstd::seq_lib::group_to_multiset_ensures;

    assert(a.to_multiset().len() == a.len());
    assert(b.to_multiset().len() == b.len());
    if a.len() > 0 {
        let x = a.last();
        let last = a.len() - 1;
        assert(a.contains(x)) by {
            assert(a[last] == x);
        }
        assert(a.to_multiset().count(x) > 0);
        assert(b.contains(x));
        let i = choose|i: int| 0 <= i < b.len() && b[i] == x;
        assert(a.remove(last) == a.drop_last());
        assert(a.drop_last().to_multiset() == a.to_multiset().remove(a[last]));
        assert(b.remove(i).to_multiset() == b.to_multiset().remove(b[i]));
        lemma_total_of_reordered(a.drop_last(), b.remove(i));
        lemma_total_without(b, i);
    }
}

/// The answers to the requests have the length that was asked for.
proof fn lemma_total_of_answers(piece: Seq<u8>, sent: Seq<BlockRequest>)
    requires
        piece.len() <= u32::MAX,
        scheduled(piece.len() as int, sent),
    ensures
        total_received(answers(piece, sent)) == total_requested(sent),
    decreases sent.len(),
{
    if sent.len() > 0 {
        law_requests_tile_the_piece(piece.len() as int, sent);
        lemma_total_of_answers(piece, sent.drop_last());
        assert(answers(piece, sent).drop_last() == answers(piece, sent.drop_last()));
        assert(sent.last() == sent[sent.len() - 1]);
    }
}

/// A peer that answers every request once, in any order, with what the piece holds there delivers
/// the piece: when the last answer is in, the fetching is complete and holds the piece.
pub proof fn law_answered_requests_deliver_the_piece(v: DownloadView, piece: Seq<u8>)
    requires
        v.wf(),
        v.phase == Phase::Length,
        v.size == piece.len() <= u32::MAX,
        v.requested() >= v.size,
        v.blocks.to_multiset() == answers(piece, v.sent).to_multiset(),
    ensures
        v.received() == v.size,
        v.content() == piece,
        v.next_step() is Complete,
{
    broadcast use vstd::seq_lib::group_to_multiset_ensures;

    let expected = answers(piece, v.sent);
    law_requests_tile_the_piece(v.size, v.sent);
    lemma_total_of_reordered(v.blocks, expected);
    lemma_total_of_answers(piece, v.sent);
    assert forall|j: int| 0 <= j < v.blocks.len() implies honest(piece, #[trigger] v.blocks[j]) by {
        assert(v.blocks.contains(v.blocks[j]));
        assert(v.blocks.to_multiset().count(v.blocks[j]) > 0);
        assert(expected.contains(v.blocks[j]));
        let k = choose|k: int| 0 <= k < expected.len() && expected[k] == v.blocks[j];
        assert(v.blocks[j] == answer(piece, v.sent[k]));
    }
    law_honest_blocks_agree_with_the_piece(piece, v.blocks);
    assert forall|i: int| 0 <= i < piece.len() implies v.content()[i] == piece[i] by {
        let k = i / (BLOCK_LEN as int);
        assert(k < v.sent.len());
        assert(v.sent[k].begin <= i < v.sent[k].begin + v.sent[k].len);
        assert(expected.contains(expected[k]));
        assert(expected.to_multiset().count(expected[k]) > 0);
        assert(v.blocks.contains(expected[k]));
        let j = choose|j: int| 0 <= j < v.blocks.len() && v.blocks[j] == expected[k];
        assert(v.blocks[j].start == v.sent[k].begin);
        assert(covered(v.blocks, i));
    }
    assert(v.content() == piece);
}

/// The client never waits for nothing: when every request was answered and the piece is not there,
/// the next step sends a request.
pub proof fn law_never_waits_for_nothing(v: DownloadView)
    requires
        v.wf(),
        v.phase == Phase::Length,
        v.sent.len() == v.blocks.len(),
        v.requested() == v.received(),
    ensures
        v.next_step() is Complete || v.next_step() is Send,
{
}

/// Every step and every read keep the fetching well-formed, the pipeline within its bound
/// included; and only a block that came in changes what is held of the piece.
pub proof fn law_steps_keep_order(v: DownloadView, bytes: Seq<u8>)
    requires
        v.wf(),
        v.size <= isize::MAX,
    ensures
        v.stepped().wf(),
        v.stepped().content() == v.content(),
        v.next_step() is Receive && bytes.len() == v.wanted() && v.admits(bytes) ==> {
            &&& v.fed(bytes).wf()
            &&& v.fed(bytes).sent == v.sent
            &&& !(v.phase is Block) ==> v.fed(bytes).content() == v.content()
        },
{
    match v.next_step() {
        NextStep::Send(request) => {
            assert(v.sent.push(request).drop_last() == v.sent);
        },
        _ => {},
    }
    if v.next_step() is Receive && bytes.len() == v.wanted() && v.admits(bytes) {
        lemma_fed_wf(v, bytes);
    }
}

/// Reading keeps the fetching well-formed.
proof fn lemma_fed_wf(v: DownloadView, bytes: Seq<u8>)
    requires
        v.wf(),
        v.size <= isize::MAX,
        v.next_step() is Receive,
        bytes.len() == v.wanted(),
        v.admits(bytes),
    ensures
        v.fed(bytes).wf(),
{
    if let Phase::Length = v.phase {
        lemma_be_value_bound(bytes);
    }
    if let Phase::BlockHead { length } = v.phase {
        lemma_be_value_bound(bytes.subrange(4, 8));
    }
}

/// A request starts where the ones before end. It asks for a full block of 16384 bytes where so much
/// is left of the piece, as far as 32 bits can tell, and for exactly what is left else.
pub proof fn law_request_asks_for_what_follows(size: int, requested: int)
    ensures
        ({
            let next = next_request(size, requested);
            let left = size - requested;
            &&& next.begin == requested
            &&& 0 <= next.len <= 16384
            &&& 0 < left <= u32::MAX ==> next.len > 0 && next.len <= left
            &&& 0 <= left <= 16384 ==> next.len == left
            &&& next.len < 16384 ==> (left - next.len) % 0x1_0000_0000 == 0
            &&& next.len == 16384 ==> left % 0x1_0000_0000 >= 16384
        }),
{
}

/// What was asked for and what came in is the sum of its parts, and as many requests are under way
/// as there are more requests than blocks.
pub proof fn law_bytes_are_summed_up(v: DownloadView)
    ensures
        v.requested() == v.sent.map_values(|r: BlockRequest| r.len).fold_left(
            0int,
            |sum: int, len: int| sum + len,
        ),
        v.received() == v.blocks.map_values(|b: Block| b.bytes.len() as int).fold_left(
            0int,
            |sum: int, len: int| sum + len,
        ),
        v.inflight() == v.sent.len() - v.blocks.len(),
{
    lemma_requested_sum(v.sent);
    lemma_received_sum(v.blocks);
}

/// The sum of the lengths that were asked for.
proof fn lemma_requested_sum(sent: Seq<BlockRequest>)
    ensures
        total_requested(sent) == sent.map_values(|r: BlockRequest| r.len).fold_left(
            0int,
            |sum: int, len: int| sum + len,
        ),
    decreases sent.len(),
{
    let lens = sent.map_values(|r: BlockRequest| r.len);
    if sent.len() > 0 {
        lemma_requested_sum(sent.drop_last());
        assert(lens.drop_last() == sent.drop_last().map_values(|r: BlockRequest| r.len));
        assert(lens.last() == sent.last().len);
    }
}

/// The sum of the lengths that came in.
proof fn lemma_received_sum(blocks: Seq<Block>)
    ensures
        total_received(blocks) == blocks.map_values(|b: Block| b.bytes.len() as int).fold_left(
            0int,
            |sum: int, len: int| sum + len,
        ),
    decreases blocks.len(),
{
    let lens = blocks.map_values(|b: Block| b.bytes.len() as int);
    if blocks.len() > 0 {
        lemma_received_sum(blocks.drop_last());
        assert(lens.drop_last() == blocks.drop_last().map_values(|b: Block| b.bytes.len() as int));
        assert(lens.last() == blocks.last().bytes.len());
    }
}

/// Of the blocks that cover a position the last decides what is held there; where none does it is
/// zero.
pub proof fn law_last_block_decides(size: int, blocks: Seq<Block>, i: int, j: int)
    requires
        0 <= i < size,
        -1 <= j < blocks.len(),
        j >= 0 ==> blocks[j].start <= i < blocks[j].start + blocks[j].bytes.len(),
        forall|k: int|
            j < k < blocks.len() ==> !((#[trigger] blocks[k]).start <= i < blocks[k].start
                + blocks[k].bytes.len()),
    ensures
        assembled(size, blocks).len() == size,
        assembled(size, blocks)[i] == (if j >= 0 {
            blocks[j].bytes[i - blocks[j].start]
        } else {
            0
        }),
    decreases blocks.len(),
{
    if blocks.len() > 0 && j < blocks.len() - 1 {
        let before = blocks.drop_last();
        assert forall|k: int| j < k < before.len() implies !((#[trigger] before[k]).start <= i
            < before[k].start + before[k].bytes.len()) by {
            assert(before[k] == blocks[k]);
        }
        law_last_block_decides(size, before, i, j);
        assert(blocks.last() == blocks[blocks.len() - 1]);
        if j >= 0 {
            assert(before[j] == blocks[j]);
        }
    }
}

/// Twelve requests are kept under way: between two messages, while the piece is not there, a request
/// is sent exactly when fewer are under way and something is left to ask for, and else bytes are
/// awaited. The fetching is complete exactly when, between two messages, as many bytes came in as
/// the piece has. Within a message bytes are awaited. A request that is sent joins the others; no
/// step changes anything else.
pub proof fn law_twelve_requests_are_kept_under_way(v: DownloadView)
    ensures
        v.phase != Phase::Length ==> v.next_step() == NextStep::Receive(v.wanted()),
        v.next_step() is Complete <==> v.phase == Phase::Length && v.received() >= v.size,
        v.phase == Phase::Length && v.received() < v.size ==> {
            if v.sent.len() - v.blocks.len() < 12 && v.requested() < v.size {
                &&& v.next_step() matches NextStep::Send(request)
                &&& request == next_request(v.size, v.requested())
                &&& v.stepped().sent == v.sent.push(request)
            } else {
                v.next_step() == NextStep::Receive(4)
            }
        },
        !(v.next_step() is Send) ==> v.stepped() == v,
        v.stepped() == (DownloadView { sent: v.stepped().sent, ..v }),
        v.content() == assembled(v.size, v.blocks),
{
}

/// The fetching of a piece starts out with nothing sent and nothing received, between two messages.
pub proof fn law_fetching_starts_from_nothing(index: u32, size: int)
    ensures
        ({
            let v = DownloadView::fresh(index, size);
            &&& v.index == index
            &&& v.size == size
            &&& v.sent.len() == 0
            &&& v.blocks.len() == 0
            &&& v.phase == Phase::Length
            &&& v.requested() == 0
            &&& v.received() == 0
        }),
{
}

/// What is sent for a request is a message of seventeen bytes that spells the piece, the position and
/// the length; what is awaited is as many bytes as the step says.
pub proof fn law_action_is_what_the_step_says(action: DownloadAction, step: NextStep, index: u32)
    requires
        carries_out(action, step, index),
    ensures
        step matches NextStep::Send(request) ==> {
            &&& action matches DownloadAction::Send(bytes)
            &&& bytes@.len() == 17
            &&& be_value(bytes@.subrange(0, 4)) == 13
            &&& bytes@[4] == 6
            &&& be_value(bytes@.subrange(5, 9)) == index
            &&& be_value(bytes@.subrange(9, 13)) == request.begin % 0x1_0000_0000
            &&& 0 <= request.len <= u32::MAX ==> be_value(bytes@.subrange(13, 17)) == request.len
        },
        step matches NextStep::Receive(n) ==> action matches DownloadAction::Receive(m) && m == n,
        step is Complete ==> action is Complete,
{
    if let NextStep::Send(request) = step {
        law_request_is_framed(
            index,
            (request.begin % 0x1_0000_0000) as u32,
            request.len as u32,
        );
    }
}

/// The words for the errors.
pub proof fn law_errors_have_their_words()
    ensures
        error_text(DownloadError::Choke) == seq!['C', 'h', 'o', 'k', 'e'],
        error_text(DownloadError::HashFail) == seq!['H', 'a', 's', 'h', ' ', 'f', 'a', 'i', 'l'],
{
    reveal_strlit("Choke");
    reveal_strlit("Hash fail");
    assert("Choke"@ == seq!['C', 'h', 'o', 'k', 'e']);
    assert("Hash fail"@ == seq!['H', 'a', 's', 'h', ' ', 'f', 'a', 'i', 'l']);
}

/// A message with a block, read between two others, adds exactly that block, at the position that
/// the message gives: its length, its kind, the piece and the position, and the bytes are awaited
/// in turn, none of it ends the fetching, and the bytes of the block and no others are counted. It
/// makes sense exactly when the block lies in the piece.
pub proof fn law_block_message_adds_its_block(
    v: DownloadView,
    index: u32,
    begin: u32,
    bytes: Seq<u8>,
)
    requires
        v.phase == Phase::Length,
        9 + bytes.len() <= u32::MAX,
    ensures
        ({
            let a = v.fed(be32((9 + bytes.len()) as u32));
            let b = a.fed(seq![7u8]);
            let c = b.fed(be32(index) + be32(begin));
            let d = c.fed(bytes);
            &&& v.wanted() == 4 && a.wanted() == 1 && b.wanted() == 8 && c.wanted() == bytes.len()
            &&& a.next_step() is Receive && b.next_step() is Receive && c.next_step() is Receive
            &&& v.admits(be32((9 + bytes.len()) as u32)) && a.admits(seq![7u8])
            &&& b.admits(be32(index) + be32(begin)) <==> begin + bytes.len() <= v.size
            &&& c.admits(bytes) <==> v.sent.len() - v.blocks.len() > i32::MIN
            &&& !v.chokes() && !a.chokes() && !b.chokes() && !c.chokes()
            &&& v.counted() == 0 && a.counted() == 0 && b.counted() == 0 && c.counted()
                == bytes.len()
            &&& d == (DownloadView {
                blocks: v.blocks.push(Block { start: begin as int, bytes }),
                ..v
            })
        }),
{
    let n = (9 + bytes.len()) as u32;
    let head = be32(index) + be32(begin);
    law_be32_round_trip(n);
    law_be32_round_trip(begin);
    assert(head.subrange(4, 8) == be32(begin));
}

/// A message too short to hold a block, or with a block that does not lie in the piece, makes no
/// sense.
pub proof fn law_misplaced_block_makes_no_sense(
    v: DownloadView,
    length: u32,
    index: u32,
    begin: u32,
)
    requires
        v.phase == Phase::Length,
        0 < length,
        length < 9 || begin + (length - 9) > v.size,
    ensures
        !v.fed(be32(length)).fed(seq![7u8]).admits(be32(index) + be32(begin)),
{
    law_be32_round_trip(length);
    law_be32_round_trip(begin);
    assert((be32(index) + be32(begin)).subrange(4, 8) == be32(begin));
}

/// A message of another kind, read between two others, changes nothing, and neither does one without
/// a kind. The rest of it is awaited and passed over, whatever it is, and it ends the fetching
/// exactly when it is the one by which the peer stops serving.
pub proof fn law_other_messages_change_nothing(
    v: DownloadView,
    length: u32,
    id: u8,
    rest: Seq<u8>,
)
    requires
        v.phase == Phase::Length,
        0 < length,
        rest.len() == length - 1,
        id != 7,
    ensures
        v.fed(be32(0)) == v,
        v.admits(be32(0)),
        ({
            let a = v.fed(be32(length));
            let b = a.fed(seq![id]);
            &&& v.wanted() == 4 && a.wanted() == 1 && b.wanted() == length - 1
            &&& a.next_step() is Receive && b.next_step() is Receive
            &&& v.admits(be32(length)) && a.admits(seq![id]) && b.admits(rest)
            &&& !v.chokes() && !a.chokes()
            &&& b.chokes() <==> id == 0
            &&& v.counted() == 0 && a.counted() == 0 && b.counted() == 0
            &&& b.fed(rest) == v
        }),
{
    law_be32_round_trip(0);
    law_be32_round_trip(length);
}

/// The message by which a peer delivers a block of piece `index`.
pub open spec fn block_message(index: u32, block: Block) -> Seq<u8> {
    be32((9 + block.bytes.len()) as u32) + seq![7u8] + be32(index) + be32(block.start as u32)
        + block.bytes
}

/// The fetching after a message with a block was read, part by part.
pub open spec fn took_in(v: DownloadView, message: Seq<u8>) -> DownloadView {
    v.fed(message.subrange(0, 4)).fed(message.subrange(4, 5)).fed(message.subrange(5, 13)).fed(
        message.skip(13),
    )
}

/// What happens while a piece is fetched: the client asks for a block, or the peer delivers one.
#[verifier::ext_equal]
pub enum Turn {
    Ask,
    Deliver { index: u32, block: Block },
}

/// The fetching after a series of turns, the peer's by the bytes that it sends.
pub open spec fn after_turns(v: DownloadView, turns: Seq<Turn>) -> DownloadView
    decreases turns.len(),
{
    if turns.len() == 0 {
        v
    } else {
        let before = after_turns(v, turns.drop_last());
        match turns.last() {
            Turn::Ask => before.stepped(),
            Turn::Deliver { index, block } => took_in(before, block_message(index, block)),
        }
    }
}

/// Whether each turn comes when it can: the client asks when it is to, and the peer delivers when
/// it was asked and the client listens, a block that lies in the piece.
pub open spec fn in_turn(v: DownloadView, turns: Seq<Turn>) -> bool
    decreases turns.len(),
{
    turns.len() == 0 || {
        let before = after_turns(v, turns.drop_last());
        &&& in_turn(v, turns.drop_last())
        &&& match turns.last() {
            Turn::Ask => before.next_step() is Send,
            Turn::Deliver { index, block } => {
                &&& before.next_step() is Receive
                &&& before.blocks.len() < before.sent.len()
                &&& 0 <= block.start <= u32::MAX
                &&& block.start + block.bytes.len() <= v.size
                &&& 9 + block.bytes.len() <= u32::MAX
            },
        }
    }
}

/// The blocks that the peer delivers, in the order of their delivery.
pub open spec fn delivered(turns: Seq<Turn>) -> Seq<Block>
    decreases turns.len(),
{
    if turns.len() == 0 {
        Seq::empty()
    } else {
        match turns.last() {
            Turn::Ask => delivered(turns.drop_last()),
            Turn::Deliver { index, block } => delivered(turns.drop_last()).push(block),
        }
    }
}

/// A message with a block, taken in as a whole.
proof fn lemma_took_in(v: DownloadView, index: u32, block: Block)
    requires
        v.phase == Phase::Length,
        9 + block.bytes.len() <= u32::MAX,
        0 <= block.start <= u32::MAX,
    ensures
        took_in(v, block_message(index, block)) == (DownloadView {
            blocks: v.blocks.push(block),
            ..v
        }),
{
    let message = block_message(index, block);
    let begin = block.start as u32;
    law_block_message_adds_its_block(v, index, begin, block.bytes);
    assert(message.subrange(0, 4) == be32((9 + block.bytes.len()) as u32));
    assert(message.subrange(4, 5) == seq![7u8]);
    assert(message.subrange(5, 13) == be32(index) + be32(begin));
    assert(message.skip(13) == block.bytes);
}

/// What the peer delivers on the wire is what the client holds: the blocks come in one for one, as
/// they were sent, and the fetching stays well-formed.
pub proof fn law_delivered_blocks_come_in(index: u32, size: int, turns: Seq<Turn>)
    requires
        0 <= size <= isize::MAX,
        in_turn(DownloadView::fresh(index, size), turns),
    ensures
        ({
            let v = after_turns(DownloadView::fresh(index, size), turns);
            &&& v.wf()
            &&& v.phase == Phase::Length
            &&& v.index == index
            &&& v.size == size
            &&& v.blocks == delivered(turns)
        }),
    decreases turns.len(),
{
    let start = DownloadView::fresh(index, size);
    if turns.len() > 0 {
        let before = after_turns(start, turns.drop_last());
        law_delivered_blocks_come_in(index, size, turns.drop_last());
        match turns.last() {
            Turn::Ask => {
                law_steps_keep_order(before, Seq::empty());
            },
            Turn::Deliver { index: i, block } => {
                lemma_took_in(before, i, block);
                let after = took_in(before, block_message(i, block));
                assert forall|k: int| 0 <= k < after.blocks.len() implies 0
                    <= (#[trigger] after.blocks[k]).start && after.blocks[k].start
                    + after.blocks[k].bytes.len() <= after.size by {
                    if k < before.blocks.len() {
                        assert(after.blocks[k] == before.blocks[k]);
                    }
                }
            },
        }
    }
}

/// A peer that answers every request once, in any order and while others are still being sent,
/// delivers the piece by the bytes on the wire: when everything was asked for and answered with what
/// the piece holds there, the fetching is complete and holds the piece.
pub proof fn law_answers_on_the_wire_deliver_the_piece(
    index: u32,
    piece: Seq<u8>,
    turns: Seq<Turn>,
)
    requires
        piece.len() <= u32::MAX,
        piece.len() <= isize::MAX,
        in_turn(DownloadView::fresh(index, piece.len() as int), turns),
        after_turns(DownloadView::fresh(index, piece.len() as int), turns).requested()
            >= piece.len(),
        delivered(turns).to_multiset() == answers(
            piece,
            after_turns(DownloadView::fresh(index, piece.len() as int), turns).sent,
        ).to_multiset(),
    ensures
        after_turns(DownloadView::fresh(index, piece.len() as int), turns).content() == piece,
        after_turns(DownloadView::fresh(index, piece.len() as int), turns).next_step() is Complete,
{
    law_delivered_blocks_come_in(index, piece.len() as int, turns);
    law_answered_requests_deliver_the_piece(
        after_turns(DownloadView::fresh(index, piece.len() as int), turns),
        piece,
    );
}

} // verus!
