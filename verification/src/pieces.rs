//! Where the pieces of a torrent lie in its file, and which of them the file already holds.
use crate::bytes::same_bytes;
#[allow(unused_imports)]
use crate::outside::{hashable, sha1_digest, sha1_of};
use vstd::prelude::*;

verus! {

/// A part of the file.
#[derive(Debug, Clone, Copy, PartialEq, Eq, Structural)]
pub struct Span {
    pub offset: usize,
    pub len: usize,
}

/// Where piece `i` starts.
pub open spec fn piece_offset(piece_length: usize, i: int) -> int {
    i * piece_length
}

/// How long piece `i` is: every piece has the nominal length, but for the last, which takes what
/// is left of the file.
pub open spec fn piece_size(piece_length: usize, total_size: u64, count: int, i: int) -> int {
    if i == count - 1 {
        total_size - piece_offset(piece_length, i)
    } else {
        piece_length as int
    }
}

/// Whether piece `i` has a place in a file of `total_size` bytes that memory can address.
pub open spec fn piece_fits(piece_length: usize, total_size: u64, count: int, i: int) -> bool {
    &&& piece_offset(piece_length, i) <= usize::MAX
    &&& i == count - 1 ==> piece_offset(piece_length, i) <= total_size <= usize::MAX
}

/// Whether every one of `count` pieces has its place.
pub open spec fn laid_out(piece_length: usize, total_size: u64, count: int) -> bool {
    forall|i: int| 0 <= i < count ==> #[trigger] piece_fits(piece_length, total_size, count, i)
}

/// Whether piece `i` of `count` has its place.
pub fn has_place(piece_length: usize, total_size: u64, count: usize, i: usize) -> (fits: bool)
    requires
        i < count,
    ensures
        fits == piece_fits(piece_length, total_size, count as int, i as int),
{
    match i.checked_mul(piece_length) {
        None => false,
        Some(offset) => i != count - 1 || (offset as u64 <= total_size && total_size
            <= usize::MAX as u64),
    }
}

/// The place of piece `i` of `count`.
pub fn piece_span(piece_length: usize, total_size: u64, count: usize, i: usize) -> (span: Span)
    requires
        i < count,
        piece_fits(piece_length, total_size, count as int, i as int),
    ensures
        span.offset == piece_offset(piece_length, i as int),
        span.len == piece_size(piece_length, total_size, count as int, i as int),
{
    let offset: usize = i * piece_length;
    let len: usize = if i == count - 1 {
        total_size as usize - offset
    } else {
        piece_length
    };
    Span { offset, len }
}

/// Whether every one of `count` pieces has its place.
pub fn all_have_place(piece_length: usize, total_size: u64, count: usize) -> (fits: bool)
    ensures
        fits == laid_out(piece_length, total_size, count as int),
{
    if count == 0 {
        return true;
    }
    let fits = has_place(piece_length, total_size, count, count - 1);
    proof {
        assert forall|i: int| 0 <= i < count && fits implies #[trigger] piece_fits(
            piece_length,
            total_size,
            count as int,
            i,
        ) by {
            assert(i * piece_length <= (count - 1) * piece_length) by (nonlinear_arith)
                requires
                    0 <= i <= count - 1,
                    0 <= piece_length,
            ;
        }
        assert(laid_out(piece_length, total_size, count as int) ==> piece_fits(
            piece_length,
            total_size,
            count as int,
            count - 1,
        ));
    }
    fits
}

/// The pieces of a torrent tile its file: the first starts at the beginning, each starts where
/// the one before ends, all but the last have the nominal length, and the last ends where the file
/// does.
pub proof fn law_pieces_tile_the_file(piece_length: usize, total_size: u64, count: int, i: int)
    requires
        laid_out(piece_length, total_size, count),
        0 <= i < count,
    ensures
        piece_offset(piece_length, 0) == 0,
        piece_size(piece_length, total_size, count, i) >= 0,
        i + 1 < count ==> piece_size(piece_length, total_size, count, i) == piece_length,
        i + 1 < count ==> piece_offset(piece_length, i + 1) == piece_offset(piece_length, i)
            + piece_size(piece_length, total_size, count, i),
        i + 1 == count ==> piece_offset(piece_length, i) + piece_size(
            piece_length,
            total_size,
            count,
            i,
        ) == total_size,
{
    assert(piece_fits(piece_length, total_size, count, i));
    assert((i + 1) * piece_length == i * piece_length + piece_length) by (nonlinear_arith);
}

/// A piece starts as many nominal lengths into the file as there are pieces before it, and has its
/// place when that can be addressed, the last one only in a file that reaches at least so far. All
/// of them have theirs exactly when the last does.
pub proof fn law_pieces_have_their_place(piece_length: usize, total_size: u64, count: int, i: int)
    requires
        0 <= i < count,
    ensures
        piece_offset(piece_length, i) == i * piece_length,
        i + 1 < count ==> piece_size(piece_length, total_size, count, i) == piece_length,
        i + 1 == count ==> piece_size(piece_length, total_size, count, i) == total_size - i
            * piece_length,
        i + 1 < count ==> (piece_fits(piece_length, total_size, count, i) <==> i * piece_length
            <= usize::MAX),
        i + 1 == count ==> (piece_fits(piece_length, total_size, count, i) <==> i * piece_length
            <= total_size <= usize::MAX),
        laid_out(piece_length, total_size, count) <==> (count - 1) * piece_length <= total_size
            <= usize::MAX,
        laid_out(piece_length, total_size, 0),
{
    if (count - 1) * piece_length <= total_size <= usize::MAX {
        assert forall|k: int| 0 <= k < count implies #[trigger] piece_fits(
            piece_length,
            total_size,
            count,
            k,
        ) by {
            assert(k * piece_length <= (count - 1) * piece_length) by (nonlinear_arith)
                requires
                    0 <= k <= count - 1,
                    0 <= piece_length,
            ;
        }
    }
    if laid_out(piece_length, total_size, count) {
        assert(piece_fits(piece_length, total_size, count, count - 1));
    }
}

/// What was read at a piece's place is that piece when the read succeeded and the digest of the
/// bytes is the piece's, and only then.
pub proof fn law_digest_decides(bytes: Seq<u8>, hash: [u8; 20])
    ensures
        !piece_present(None, hash),
        piece_present(Some(bytes), hash) <==> sha1_of(bytes) == hash@,
{
}

/// The places of two pieces do not overlap, so that writing one leaves the others alone.
pub proof fn law_places_do_not_overlap(
    piece_length: usize,
    total_size: u64,
    count: int,
    i: int,
    j: int,
)
    requires
        laid_out(piece_length, total_size, count),
        0 <= i < j < count,
    ensures
        piece_offset(piece_length, i) + piece_size(piece_length, total_size, count, i)
            <= piece_offset(piece_length, j),
{
    assert((i + 1) * piece_length <= j * piece_length) by (nonlinear_arith)
        requires
            i + 1 <= j,
            0 <= piece_length,
    ;
    assert((i + 1) * piece_length == i * piece_length + piece_length) by (nonlinear_arith);
}

/// Whether what was read at a piece's place is that piece: the read succeeded and the bytes have
/// the piece's digest.
pub open spec fn piece_present(read: Option<Seq<u8>>, hash: [u8; 20]) -> bool {
    read matches Some(bytes) && sha1_of(bytes) == hash@
}

/// The pieces that are not there, in ascending order, after one read for each of the first
/// `reads.len()` pieces.
pub open spec fn missing_pieces(reads: Seq<Option<Seq<u8>>>, hashes: Seq<[u8; 20]>) -> Seq<usize>
    decreases reads.len(),
{
    if reads.len() == 0 {
        Seq::empty()
    } else {
        let before = missing_pieces(reads.drop_last(), hashes);
        let i = reads.len() - 1;
        if piece_present(reads.last(), hashes[i]) {
            before
        } else {
            before.push(i as usize)
        }
    }
}

/// What a file holds of a torrent, found out piece by piece.
pub struct PieceScan<'a> {
    piece_length: usize,
    total_size: u64,
    hashes: &'a Vec<[u8; 20]>,
    next: usize,
    todo: Vec<usize>,
    finished: usize,
    reads: Ghost<Seq<Option<Seq<u8>>>>,
}

impl<'a> PieceScan<'a> {
    /// The digests that the pieces must have.
    pub closed spec fn hashes(&self) -> Seq<[u8; 20]> {
        self.hashes@
    }

    /// What has been read so far, piece by piece.
    pub closed spec fn reads(&self) -> Seq<Option<Seq<u8>>> {
        self.reads@
    }

    /// The nominal length of a piece.
    pub closed spec fn piece_length(&self) -> usize {
        self.piece_length
    }

    /// The length of the file.
    pub closed spec fn total_size(&self) -> u64 {
        self.total_size
    }

    /// Every piece has its place, and the lists agree with what has been read.
    pub closed spec fn wf(&self) -> bool {
        &&& laid_out(self.piece_length, self.total_size, self.hashes@.len() as int)
        &&& self.next == self.reads@.len()
        &&& self.next <= self.hashes@.len()
        &&& self.todo@ == missing_pieces(self.reads@, self.hashes@)
        &&& self.todo@.len() + self.finished == self.next
    }

    /// A scan that has read nothing yet.
    pub fn new(piece_length: usize, total_size: u64, hashes: &'a Vec<[u8; 20]>) -> (scan: Self)
        requires
            laid_out(piece_length, total_size, hashes@.len() as int),
        ensures
            scan.wf(),
            scan.piece_length() == piece_length,
            scan.total_size() == total_size,
            scan.hashes() == hashes@,
            scan.reads() == Seq::<Option<Seq<u8>>>::empty(),
    {
        PieceScan {
            piece_length,
            total_size,
            hashes,
            next: 0,
            todo: Vec::new(),
            finished: 0,
            reads: Ghost(Seq::empty()),
        }
    }

    /// The part of the file to read next, or nothing when every piece has been read.
    pub fn next_read(&self) -> (span: Option<Span>)
        requires
            self.wf(),
        ensures
            span is None <==> self.reads().len() == self.hashes().len(),
            self.reads().len() <= self.hashes().len(),
            span matches Some(s) ==> {
                &&& s.offset == piece_offset(self.piece_length(), self.reads().len() as int)
                &&& s.len == piece_size(
                    self.piece_length(),
                    self.total_size(),
                    self.hashes().len() as int,
                    self.reads().len() as int,
                )
            },
    {
        if self.next < self.hashes.len() {
            assert(piece_fits(
                self.piece_length,
                self.total_size,
                self.hashes@.len() as int,
                self.next as int,
            ));
            Some(piece_span(self.piece_length, self.total_size, self.hashes.len(), self.next))
        } else {
            None
        }
    }

    /// Takes note of what the read of the next piece gave: its bytes, or nothing where it failed.
    pub fn record(&mut self, read: Option<&[u8]>)
        requires
            old(self).wf(),
            old(self).reads().len() < old(self).hashes().len(),
            read matches Some(bytes) ==> hashable(bytes@.len()),
        ensures
            final(self).wf(),
            final(self).piece_length() == old(self).piece_length(),
            final(self).total_size() == old(self).total_size(),
            final(self).hashes() == old(self).hashes(),
            final(self).reads() == old(self).reads().push(
                match read {
                    Some(bytes) => Some(bytes@),
                    None => None,
                },
            ),
    {
        let ghost entry: Option<Seq<u8>> = match read {
            Some(bytes) => Some(bytes@),
            None => None,
        };
        let ghost before = self.reads@;
        let present = match read {
            Some(bytes) => {
                let digest = sha1_digest(bytes);
                same_bytes(&digest, &self.hashes[self.next])
            },
            None => false,
        };
        assert(present == piece_present(entry, self.hashes@[self.next as int]));
        assert(before.push(entry).drop_last() =~= before);
        assert(self.next < self.hashes.len());
        if present {
            self.finished = self.finished + 1;
        } else {
            self.todo.push(self.next);
        }
        self.next = self.next + 1;
        self.reads = Ghost(before.push(entry));
    }

    /// The pieces that are still to be fetched, and how many are there, once every piece has been
    /// read.
    pub fn finish(self) -> (found: (Vec<usize>, usize))
        requires
            self.wf(),
            self.reads().len() == self.hashes().len(),
        ensures
            found.0@ == missing_pieces(self.reads(), self.hashes()),
            found.0@.len() + found.1 == self.hashes().len(),
    {
        (self.todo, self.finished)
    }
}

/// What a file that cannot be opened holds: nothing, so that every piece is to be fetched.
pub fn nothing_found(count: usize) -> (found: (Vec<usize>, usize))
    ensures
        found.0@ == Seq::new(count as nat, |i: int| i as usize),
        found.1 == 0,
{
    let mut todo: Vec<usize> = Vec::new();
    let mut i: usize = 0;
    while i < count
        invariant
            i <= count,
            todo@ == Seq::new(i as nat, |i: int| i as usize),
        decreases count - i,
    {
        todo.push(i);
        i += 1;
    }
    (todo, 0)
}

/// A scan parts the pieces in two: piece `i` is to be fetched exactly when it was not there, each
/// such piece is listed once, and the list ascends.
pub proof fn law_scan_lists_what_is_missing(
    reads: Seq<Option<Seq<u8>>>,
    hashes: Seq<[u8; 20]>,
)
    requires
        reads.len() <= hashes.len() <= usize::MAX,
    ensures
        missing_pieces(reads, hashes).len() <= reads.len(),
        forall|i: usize|
            #![trigger missing_pieces(reads, hashes).contains(i)]
            missing_pieces(reads, hashes).contains(i) <==> i < reads.len() && !piece_present(
                reads[i as int],
                hashes[i as int],
            ),
        forall|a: int, b: int|
            0 <= a < b < missing_pieces(reads, hashes).len() ==> missing_pieces(reads, hashes)[a]
                < missing_pieces(reads, hashes)[b],
    decreases reads.len(),
{
    let all = missing_pieces(reads, hashes);
    if reads.len() > 0 {
        let shorter = reads.drop_last();
        let before = missing_pieces(shorter, hashes);
        let last = (reads.len() - 1) as usize;
        law_scan_lists_what_is_missing(shorter, hashes);
        assert forall|k: int| 0 <= k < before.len() implies before[k] < last by {
            assert(before.contains(before[k]));
        }
        assert forall|i: usize| #[trigger] all.contains(i) <==> i < reads.len() && !piece_present(
            reads[i as int],
            hashes[i as int],
        ) by {
            assert(before.contains(i) <==> i < shorter.len() && !piece_present(
                shorter[i as int],
                hashes[i as int],
            ));
            if all.contains(i) {
                let k = choose|k: int| 0 <= k < all.len() && all[k] == i;
                if k < before.len() {
                    assert(before[k] == i);
                    assert(before.contains(i));
                }
            }
            if before.contains(i) {
                let k = choose|k: int| 0 <= k < before.len() && before[k] == i;
                assert(all[k] == i);
            } else if i == last && !piece_present(reads[i as int], hashes[i as int]) {
                assert(all[before.len() as int] == i);
            }
        }
    }
}

/// A file that holds every piece leaves nothing to fetch: a download that was complete is taken
/// up again as complete.
pub proof fn law_complete_file_is_recognised(
    reads: Seq<Option<Seq<u8>>>,
    hashes: Seq<[u8; 20]>,
)
    requires
        reads.len() <= hashes.len(),
        forall|i: int| 0 <= i < reads.len() ==> piece_present(#[trigger] reads[i], hashes[i]),
    ensures
        missing_pieces(reads, hashes) == Seq::<usize>::empty(),
    decreases reads.len(),
{
    if reads.len() > 0 {
        let shorter = reads.drop_last();
        assert forall|i: int| 0 <= i < shorter.len() implies piece_present(
            #[trigger] shorter[i],
            hashes[i],
        ) by {
            assert(shorter[i] == reads[i]);
        }
        law_complete_file_is_recognised(shorter, hashes);
        assert(reads.last() == reads[reads.len() - 1]);
    }
}

/// A file that cannot be opened is one of which no read succeeds: every piece is to be fetched.
pub proof fn law_unreadable_file_holds_nothing(
    reads: Seq<Option<Seq<u8>>>,
    hashes: Seq<[u8; 20]>,
)
    requires
        forall|i: int| 0 <= i < reads.len() ==> (#[trigger] reads[i]) is None,
    ensures
        missing_pieces(reads, hashes) == Seq::new(reads.len(), |i: int| i as usize),
    decreases reads.len(),
{
    if reads.len() > 0 {
        let shorter = reads.drop_last();
        assert forall|i: int| 0 <= i < shorter.len() implies (#[trigger] shorter[i]) is None by {
            assert(shorter[i] == reads[i]);
        }
        law_unreadable_file_holds_nothing(shorter, hashes);
        assert(reads[reads.len() - 1] is None);
    }
    assert(missing_pieces(reads, hashes) == Seq::new(reads.len(), |i: int| i as usize));
}

/// A file into which `data` was written at `offset`.
pub open spec fn written(file: Seq<u8>, offset: int, data: Seq<u8>) -> Seq<u8> {
    Seq::new(
        file.len(),
        |k: int|
            if offset <= k < offset + data.len() {
                data[k - offset]
            } else {
                file[k]
            },
    )
}

/// What a file holds at the place of piece `i`.
pub open spec fn bytes_at(file: Seq<u8>, piece_length: usize, total_size: u64, count: int, i: int) -> Seq<
    u8,
> {
    file.subrange(
        piece_offset(piece_length, i),
        piece_offset(piece_length, i) + piece_size(piece_length, total_size, count, i),
    )
}

/// What a scan of a whole file reads.
pub open spec fn reads_of(file: Seq<u8>, piece_length: usize, total_size: u64, count: int) -> Seq<
    Option<Seq<u8>>,
> {
    Seq::new(
        count as nat,
        |i: int| Some(bytes_at(file, piece_length, total_size, count, i)),
    )
}

/// A piece that was saved is found again: written to its place it is no longer missing, and what
/// the file holds of the other pieces is what it was.
pub proof fn law_saved_piece_is_found_again(
    file: Seq<u8>,
    data: Seq<u8>,
    piece_length: usize,
    total_size: u64,
    hashes: Seq<[u8; 20]>,
    i: int,
)
    requires
        hashes.len() <= usize::MAX,
        laid_out(piece_length, total_size, hashes.len() as int),
        file.len() == total_size,
        0 <= i < hashes.len(),
        sha1_of(data) == hashes[i]@,
        data.len() == piece_size(piece_length, total_size, hashes.len() as int, i),
    ensures
        ({
            let count = hashes.len() as int;
            let after = written(file, piece_offset(piece_length, i), data);
            let missing = missing_pieces(reads_of(file, piece_length, total_size, count), hashes);
            let missing_after = missing_pieces(
                reads_of(after, piece_length, total_size, count),
                hashes,
            );
            &&& !missing_after.contains(i as usize)
            &&& forall|j: int|
                #![trigger bytes_at(after, piece_length, total_size, count, j)]
                0 <= j < count && j != i ==> bytes_at(after, piece_length, total_size, count, j)
                    == bytes_at(file, piece_length, total_size, count, j)
            &&& forall|j: usize|
                j != i ==> (#[trigger] missing_after.contains(j) <==> missing.contains(j))
        }),
{
    let count = hashes.len() as int;
    let offset = piece_offset(piece_length, i);
    let after = written(file, offset, data);
    let reads = reads_of(file, piece_length, total_size, count);
    let reads_after = reads_of(after, piece_length, total_size, count);
    law_scan_lists_what_is_missing(reads, hashes);
    law_scan_lists_what_is_missing(reads_after, hashes);
    lemma_in_the_file(piece_length, total_size, count, i);
    assert(bytes_at(after, piece_length, total_size, count, i) == data);
    assert(reads_after[i] == Some(data));
    assert forall|j: int| 0 <= j < count && j != i implies #[trigger] bytes_at(
        after,
        piece_length,
        total_size,
        count,
        j,
    ) == bytes_at(file, piece_length, total_size, count, j) by {
        lemma_in_the_file(piece_length, total_size, count, j);
        if j < i {
            law_places_do_not_overlap(piece_length, total_size, count, j, i);
        } else {
            law_places_do_not_overlap(piece_length, total_size, count, i, j);
        }
    }
    assert forall|j: usize| j != i implies (#[trigger] missing_pieces(
        reads_after,
        hashes,
    ).contains(j) <==> missing_pieces(reads, hashes).contains(j)) by {
        if j < count {
            assert(bytes_at(after, piece_length, total_size, count, j as int) == bytes_at(
                file,
                piece_length,
                total_size,
                count,
                j as int,
            ));
        }
    }
}

/// The place of a piece lies in the file.
proof fn lemma_in_the_file(piece_length: usize, total_size: u64, count: int, i: int)
    requires
        laid_out(piece_length, total_size, count),
        0 <= i < count,
    ensures
        0 <= piece_offset(piece_length, i),
        0 <= piece_size(piece_length, total_size, count, i),
        piece_offset(piece_length, i) + piece_size(piece_length, total_size, count, i)
            <= total_size,
{
    assert(0 <= i * piece_length) by (nonlinear_arith)
        requires
            0 <= i,
            0 <= piece_length,
    ;
    assert(piece_fits(piece_length, total_size, count, i));
    assert(piece_fits(piece_length, total_size, count, count - 1));
    if i < count - 1 {
        law_places_do_not_overlap(piece_length, total_size, count, i, count - 1);
    }
}

} // verus!
