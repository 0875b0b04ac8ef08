//! What a torrent file says, and what follows from it before anything is fetched.
use vstd::prelude::*;

verus! {

/// A torrent file.
#[derive(Debug)]
pub struct Torrent {
    pub announce: String,
    pub announce_list: Option<Vec<Vec<String>>>,
    pub info: Info,
}

/// The part of a torrent file that describes its contents.
#[derive(Debug)]
pub struct Info {
    pub name: String,
    pub piece_length: i64,
    pub pieces: Vec<u8>,
    pub length: Option<i64>,
    pub files: Option<Vec<File>>,
}

/// One file of a torrent that has several.
#[derive(Debug)]
pub struct File {
    pub length: i64,
    pub path: Vec<String>,
}

/// The number of bytes in the digest of a piece.
pub const HASH_LEN: usize = 20;

/// The value that a signed number has when its 64 bits are read as an unsigned one.
pub open spec fn wrapped_u64(x: int) -> int {
    x % 0x1_0000_0000_0000_0000
}

/// The value that a signed number has when it is cut down to the width of an address.
pub open spec fn wrapped_usize(x: int) -> int {
    x % (usize::MAX + 1)
}

/// Reads the bits of a signed number as an unsigned one.
fn wrap_u64(x: i64) -> (y: u64)
    ensures
        y == wrapped_u64(x as int),
{
    if x >= 0 {
        x as u64
    } else {
        (x as i128 + 0x1_0000_0000_0000_0000i128) as u64
    }
}

/// Cuts a signed number down to the width of an address.
pub(crate) fn wrap_usize(x: i64) -> (y: usize)
    ensures
        y == wrapped_usize(x as int),
{
    let wide = wrap_u64(x);
    if wide <= usize::MAX as u64 {
        proof {
            lemma_wrap_of_wrap(x as int);
            vstd::arithmetic::div_mod::lemma_small_mod(wide as nat, (usize::MAX + 1) as nat);
        }
        wide as usize
    } else {
        proof {
            lemma_wrap_of_wrap(x as int);
        }
        (wide % (usize::MAX as u64 + 1)) as usize
    }
}

/// Cutting down in two steps is cutting down once.
proof fn lemma_wrap_of_wrap(x: int)
    ensures
        wrapped_usize(wrapped_u64(x)) == wrapped_usize(x),
{
    let small = usize::MAX + 1;
    let q = x / 0x1_0000_0000_0000_0000;
    let w = x % 0x1_0000_0000_0000_0000;
    let k: int = if small == 0x1_0000_0000 {
        0x1_0000_0000
    } else {
        1
    };
    assert(small == 0x1_0000_0000 || small == 0x1_0000_0000_0000_0000);
    assert(small * k == 0x1_0000_0000_0000_0000) by (nonlinear_arith)
        requires
            small == 0x1_0000_0000 && k == 0x1_0000_0000 || small == 0x1_0000_0000_0000_0000 && k
                == 1,
    ;
    assert(x == 0x1_0000_0000_0000_0000 * q + w);
    assert(0x1_0000_0000_0000_0000 * q == small * (k * q)) by (nonlinear_arith)
        requires
            small * k == 0x1_0000_0000_0000_0000,
    ;
    vstd::arithmetic::div_mod::lemma_mod_multiples_vanish(k * q, w, small);
}

/// The sum of the lengths of the files.
pub open spec fn files_length(files: Seq<File>) -> int
    decreases files.len(),
{
    if files.len() == 0 {
        0
    } else {
        files_length(files.drop_last()) + files.last().length
    }
}

/// Whether the lengths of the files can be summed up, from the first to the last, in 64 bits.
pub open spec fn files_length_fits(files: Seq<File>) -> bool {
    forall|n: int|
        0 <= n <= files.len() ==> i64::MIN <= #[trigger] files_length(files.take(n)) <= i64::MAX
}

/// The digests that a string of digests holds: its first twenty bytes, its next twenty, and so on,
/// without a shorter rest.
pub open spec fn split_hashes(pieces: Seq<u8>) -> Seq<Seq<u8>> {
    Seq::new(pieces.len() / 20, |i: int| pieces.subrange(20 * i, 20 * i + 20))
}

/// The bytes of each digest of a list.
pub open spec fn hash_bytes(hashes: Seq<[u8; 20]>) -> Seq<Seq<u8>> {
    Seq::new(hashes.len(), |i: int| hashes[i]@)
}

impl Info {
    /// The length of the contents: the length that is given, else the sum of the files', else
    /// nothing.
    pub open spec fn spec_length(&self) -> int {
        match self.length {
            Some(length) => length as int,
            None => match self.files {
                Some(files) => files_length(files@),
                None => 0,
            },
        }
    }

    /// Whether the length of the contents can be told.
    pub open spec fn length_fits(&self) -> bool {
        self.length is None ==> (self.files matches Some(files) ==> files_length_fits(files@))
    }

    /// Whether the length of the contents can be told.
    pub fn has_length(&self) -> (fits: bool)
        ensures
            fits == self.length_fits(),
    {
        if self.length.is_some() {
            return true;
        }
        match &self.files {
            None => true,
            Some(files) => {
                let mut sum: i64 = 0;
                let mut i: usize = 0;
                assert(files@.take(0) == Seq::<File>::empty());
                while i < files.len()
                    invariant
                        i <= files@.len(),
                        self.length is None,
                        self.files == Some(*files),
                        sum == files_length(files@.take(i as int)),
                        forall|n: int|
                            0 <= n <= i ==> i64::MIN <= #[trigger] files_length(files@.take(n))
                                <= i64::MAX,
                    decreases files@.len() - i,
                {
                    let ghost longer = files@.take(i + 1);
                    assert(longer.drop_last() == files@.take(i as int));
                    assert(longer.last() == files@[i as int]);
                    match sum.checked_add(files[i].length) {
                        None => {
                            assert(!(i64::MIN <= files_length(longer) <= i64::MAX));
                            return false;
                        },
                        Some(next) => {
                            sum = next;
                        },
                    }
                    i += 1;
                }
                true
            },
        }
    }

    /// The length of the contents, with its bits read as an unsigned number.
    pub fn total_length(&self) -> (total: u64)
        requires
            self.length_fits(),
        ensures
            total == wrapped_u64(self.spec_length()),
    {
        let signed: i64 = match self.length {
            Some(length) => length,
            None => match &self.files {
                None => 0,
                Some(files) => {
                    let mut sum: i64 = 0;
                    let mut i: usize = 0;
                    assert(files@.take(0) == Seq::<File>::empty());
                    while i < files.len()
                        invariant
                            i <= files@.len(),
                            files_length_fits(files@),
                            sum == files_length(files@.take(i as int)),
                        decreases files@.len() - i,
                    {
                        let ghost longer = files@.take(i + 1);
                        assert(longer.drop_last() == files@.take(i as int));
                        assert(longer.last() == files@[i as int]);
                        assert(i64::MIN <= files_length(longer) <= i64::MAX);
                        sum = sum + files[i].length;
                        i += 1;
                    }
                    assert(files@.take(i as int) == files@);
                    sum
                },
            },
        };
        wrap_u64(signed)
    }

    /// The digests of the pieces.
    pub fn piece_hashes(&self) -> (hashes: Vec<[u8; 20]>)
        ensures
            hash_bytes(hashes@) == split_hashes(self.pieces@),
    {
        let count: usize = self.pieces.len() / HASH_LEN;
        let mut hashes: Vec<[u8; 20]> = Vec::new();
        let mut i: usize = 0;
        while i < count
            invariant
                i <= count,
                count == self.pieces.len() / 20,
                hashes@.len() == i,
                forall|k: int|
                    0 <= k < i ==> (#[trigger] hashes@[k])@ == self.pieces@.subrange(
                        20 * k,
                        20 * k + 20,
                    ),
            decreases count - i,
        {
            let mut hash: [u8; 20] = [0u8; 20];
            let mut j: usize = 0;
            while j < HASH_LEN
                invariant
                    j <= 20,
                    20 * i + 20 <= self.pieces.len(),
                    forall|k: int| 0 <= k < j ==> hash@[k] == self.pieces@[20 * i + k],
                decreases 20 - j,
            {
                hash[j] = self.pieces[HASH_LEN * i + j];
                j += 1;
            }
            assert(hash@ == self.pieces@.subrange(20 * i, 20 * i + 20));
            hashes.push(hash);
            i += 1;
        }
        assert(hash_bytes(hashes@) == split_hashes(self.pieces@));
        hashes
    }
}

/// The texts of a list, as sequences of characters.
pub open spec fn texts(list: Seq<String>) -> Seq<Seq<char>> {
    Seq::new(list.len(), |i: int| list[i]@)
}

/// The texts of a list of lists, one list after the other.
pub open spec fn all_texts(lists: Seq<Vec<String>>) -> Seq<Seq<char>>
    decreases lists.len(),
{
    if lists.len() == 0 {
        Seq::empty()
    } else {
        all_texts(lists.drop_last()) + texts(lists.last()@)
    }
}

/// A list in which each run of equal neighbours has become one.
pub open spec fn deduplicated(list: Seq<Seq<char>>) -> Seq<Seq<char>>
    decreases list.len(),
{
    if list.len() <= 1 {
        list
    } else {
        let before = deduplicated(list.drop_last());
        if list.last() == list[list.len() - 2] {
            before
        } else {
            before.push(list.last())
        }
    }
}

impl Torrent {
    /// The trackers that the file names, in order: the main one, then those of the list.
    pub open spec fn named_trackers(&self) -> Seq<Seq<char>> {
        seq![self.announce@] + match self.announce_list {
            Some(lists) => all_texts(lists@),
            None => Seq::empty(),
        }
    }

    /// The trackers to ask: those that the file names, each run of equal neighbours once.
    pub fn trackers(&self) -> (urls: Vec<String>)
        ensures
            texts(urls@) == deduplicated(self.named_trackers()),
    {
        let mut urls: Vec<String> = Vec::new();
        urls.push(self.announce.clone());
        let ghost mut named: Seq<Seq<char>> = seq![self.announce@];
        assert(texts(urls@) == deduplicated(named));
        if let Some(lists) = &self.announce_list {
            let mut i: usize = 0;
            while i < lists.len()
                invariant
                    i <= lists@.len(),
                    named == seq![self.announce@] + all_texts(lists@.take(i as int)),
                    texts(urls@) == deduplicated(named),
                    urls@.len() > 0,
                    named.len() > 0,
                    urls@.last()@ == named.last(),
                decreases lists@.len() - i,
            {
                let ghost base = named;
                let list = &lists[i];
                let mut j: usize = 0;
                while j < list.len()
                    invariant
                        j <= list@.len(),
                        named == base + texts(list@.take(j as int)),
                        texts(urls@) == deduplicated(named),
                        urls@.len() > 0,
                        named.len() > 0,
                        urls@.last()@ == named.last(),
                    decreases list@.len() - j,
                {
                    let url = &list[j];
                    let ghost longer = named.push(url@);
                    proof {
                        assert(texts(list@.take(j + 1)) == texts(list@.take(j as int)).push(url@));
                        assert(base + texts(list@.take(j + 1)) == longer);
                        assert(longer.drop_last() == named);
                        assert(longer[longer.len() - 2] == named.last());
                    }
                    if *url != urls[urls.len() - 1] {
                        let ghost before = urls@;
                        urls.push(url.clone());
                        assert(texts(urls@) == texts(before).push(url@));
                    }
                    proof {
                        named = longer;
                    }
                    j += 1;
                }
                proof {
                    let shorter = lists@.take(i as int);
                    let longer = lists@.take(i + 1);
                    assert(list@.take(j as int) == list@);
                    assert(longer.drop_last() == shorter);
                    assert(longer.last() == lists@[i as int]);
                    assert((seq![self.announce@] + all_texts(shorter)) + texts(list@) == seq![
                        self.announce@,
                    ] + (all_texts(shorter) + texts(list@)));
                }
                i += 1;
            }
            assert(lists@.take(i as int) == lists@);
        } else {
            assert(named == self.named_trackers());
        }
        urls
    }
}

/// The length of several files is the sum of their lengths, and depends on nothing else of them.
pub proof fn law_lengths_are_summed_up(files: Seq<File>)
    ensures
        files_length(files) == files.map_values(|f: File| f.length as int).fold_left(
            0int,
            |sum: int, length: int| sum + length,
        ),
    decreases files.len(),
{
    let lengths = files.map_values(|f: File| f.length as int);
    if files.len() > 0 {
        law_lengths_are_summed_up(files.drop_last());
        assert(lengths.drop_last() == files.drop_last().map_values(|f: File| f.length as int));
        assert(lengths.last() == files.last().length);
    }
}

/// The length that a description gives comes before that of its files. Without it the files are
/// summed up, and without files there is nothing. It can always be told but where a sum, from the
/// first file to any other, takes more than 64 bits.
pub proof fn law_given_length_comes_first(info: Info)
    ensures
        info.length matches Some(length) ==> info.spec_length() == length && info.length_fits(),
        info.length is None && info.files is None ==> info.spec_length() == 0
            && info.length_fits(),
        info.length is None ==> (info.files matches Some(files) ==> {
            let sum = |n: int|
                files@.take(n).map_values(|f: File| f.length as int).fold_left(
                    0int,
                    |sum: int, length: int| sum + length,
                );
            &&& info.spec_length() == sum(files@.len() as int)
            &&& info.length_fits() <==> forall|n: int|
                0 <= n <= files@.len() ==> i64::MIN <= #[trigger] sum(n) <= i64::MAX
        }),
{
    if info.length is None {
        if let Some(files) = info.files {
            let sum = |n: int|
                files@.take(n).map_values(|f: File| f.length as int).fold_left(
                    0int,
                    |sum: int, length: int| sum + length,
                );
            assert forall|n: int| files_length(files@.take(n)) == #[trigger] sum(n) by {
                law_lengths_are_summed_up(files@.take(n));
            }
            assert(files@.take(files@.len() as int) == files@);
            assert(info.spec_length() == sum(files@.len() as int));
            if info.length_fits() {
                assert forall|n: int| 0 <= n <= files@.len() implies i64::MIN <= #[trigger] sum(n)
                    <= i64::MAX by {
                    assert(i64::MIN <= files_length(files@.take(n)) <= i64::MAX);
                }
            }
            if forall|n: int|
                0 <= n <= files@.len() ==> i64::MIN <= #[trigger] sum(n) <= i64::MAX {
                assert forall|n: int| 0 <= n <= files@.len() implies i64::MIN
                    <= #[trigger] files_length(files@.take(n)) <= i64::MAX by {
                    assert(i64::MIN <= sum(n) <= i64::MAX);
                }
            }
        }
    }
}

/// A number that is not negative keeps its value when it is read as an unsigned one; a negative one
/// counts down from two to the power of sixty-four. Cut down to the width of an address it keeps
/// its value where that is enough, and changes by whole powers of two else.
pub proof fn law_wrapping_keeps_what_fits(x: i64)
    ensures
        x >= 0 ==> wrapped_u64(x as int) == x,
        x < 0 ==> wrapped_u64(x as int) == x + 0x1_0000_0000_0000_0000,
        0 <= x <= usize::MAX ==> wrapped_usize(x as int) == x,
        0 <= wrapped_usize(x as int) <= usize::MAX,
        (x - wrapped_usize(x as int)) % (usize::MAX + 1) == 0,
{
    let m = usize::MAX + 1;
    vstd::arithmetic::div_mod::lemma_fundamental_div_mod(x as int, m);
    vstd::arithmetic::div_mod::lemma_mod_bound(x as int, m);
    let q = x as int / m;
    assert(x - x as int % m == m * q);
    assert(q * m == m * q) by (nonlinear_arith);
    vstd::arithmetic::div_mod::lemma_mod_multiples_basic(q, m);
    if 0 <= x <= usize::MAX {
        vstd::arithmetic::div_mod::lemma_small_mod(x as nat, m as nat);
    }
}

/// A string of digests is cut into twenties: byte `j` of digest `i` is byte `20 * i + j` of the
/// string, and less than twenty bytes are left over.
pub proof fn law_digests_are_cut_into_twenties(pieces: Seq<u8>)
    ensures
        20 * split_hashes(pieces).len() <= pieces.len() < 20 * split_hashes(pieces).len() + 20,
        forall|i: int|
            0 <= i < split_hashes(pieces).len() ==> (#[trigger] split_hashes(pieces)[i]).len() == 20,
        forall|i: int, j: int|
            0 <= i < split_hashes(pieces).len() && 0 <= j < 20 ==> #[trigger] split_hashes(
                pieces,
            )[i][j] == pieces[20 * i + j],
{
}

/// The trackers that a file names are the main one and then those of the lists, list by list.
pub proof fn law_main_tracker_comes_first(torrent: Torrent)
    ensures
        torrent.named_trackers().len() > 0,
        torrent.named_trackers()[0] == torrent.announce@,
        torrent.announce_list is None ==> torrent.named_trackers().len() == 1,
        torrent.announce_list matches Some(lists) ==> torrent.named_trackers().skip(1)
            == lists@.map_values(
            |list: Vec<String>| list@.map_values(|url: String| url@),
        ).flatten(),
{
    if let Some(lists) = torrent.announce_list {
        lemma_all_texts_in_a_row(lists@);
        assert(torrent.named_trackers().skip(1) == all_texts(lists@));
    }
}

/// The texts of a list of lists are those of its lists, one after the other.
proof fn lemma_all_texts_in_a_row(lists: Seq<Vec<String>>)
    ensures
        all_texts(lists) == lists.map_values(
            |list: Vec<String>| list@.map_values(|url: String| url@),
        ).flatten(),
    decreases lists.len(),
{
    let nested = lists.map_values(|list: Vec<String>| list@.map_values(|url: String| url@));
    nested.lemma_flatten_and_flatten_alt_are_equivalent();
    if lists.len() > 0 {
        let before = lists.drop_last();
        let shorter = before.map_values(
            |list: Vec<String>| list@.map_values(|url: String| url@),
        );
        lemma_all_texts_in_a_row(before);
        shorter.lemma_flatten_and_flatten_alt_are_equivalent();
        assert(nested.drop_last() == shorter);
        assert(nested.last() == texts(lists.last()@));
    }
}

/// A list without equal neighbours is kept as it is.
pub proof fn law_different_neighbours_are_kept(list: Seq<Seq<char>>)
    requires
        forall|i: int, j: int| 0 <= i && j == i + 1 && j < list.len() ==> list[i] != list[j],
    ensures
        deduplicated(list) == list,
    decreases list.len(),
{
    if list.len() > 1 {
        law_different_neighbours_are_kept(list.drop_last());
        assert(list[list.len() - 2] != list[list.len() - 1]);
        assert(list.drop_last().push(list.last()) == list);
    }
}

/// Naming a tracker once more right behind itself changes nothing.
pub proof fn law_equal_neighbours_become_one(
    before: Seq<Seq<char>>,
    url: Seq<char>,
    after: Seq<Seq<char>>,
)
    ensures
        deduplicated(before.push(url).push(url) + after) == deduplicated(before.push(url) + after),
    decreases after.len(),
{
    let twice = before.push(url).push(url) + after;
    let once = before.push(url) + after;
    if after.len() == 0 {
        assert(twice == before.push(url).push(url));
        assert(once == before.push(url));
        assert(twice.drop_last() == once);
    } else {
        law_equal_neighbours_become_one(before, url, after.drop_last());
        assert(twice.drop_last() == before.push(url).push(url) + after.drop_last());
        assert(once.drop_last() == before.push(url) + after.drop_last());
        assert(twice[twice.len() - 2] == once[once.len() - 2]);
        assert(twice.last() == once.last());
    }
}

/// Every tracker that is named is asked, and no other; the first is the first that is named; and
/// none is asked twice in a row.
pub proof fn law_named_trackers_are_asked(named: Seq<Seq<char>>)
    requires
        named.len() > 0,
    ensures
        deduplicated(named).len() > 0,
        deduplicated(named)[0] == named[0],
        deduplicated(named).last() == named.last(),
        forall|url: Seq<char>|
            #[trigger] deduplicated(named).contains(url) <==> named.contains(url),
        forall|i: int, j: int|
            0 <= i && j == i + 1 && j < deduplicated(named).len() ==> #[trigger] deduplicated(
                named,
            )[i] != #[trigger] deduplicated(named)[j],
    decreases named.len(),
{
    if named.len() > 1 {
        let before = named.drop_last();
        let all = deduplicated(named);
        let shorter = deduplicated(before);
        let last = named.last();
        law_named_trackers_are_asked(before);
        assert(before.last() == named[named.len() - 2]);
        assert forall|url: Seq<char>| #[trigger] all.contains(url) <==> named.contains(url) by {
            assert(shorter.contains(url) <==> before.contains(url));
            if all.contains(url) {
                let k = choose|k: int| 0 <= k < all.len() && all[k] == url;
                if k < shorter.len() {
                    assert(shorter[k] == url);
                    let n = choose|n: int| 0 <= n < before.len() && before[n] == url;
                    assert(named[n] == url);
                } else {
                    assert(named[named.len() - 1] == url);
                }
            }
            if named.contains(url) {
                let n = choose|n: int| 0 <= n < named.len() && named[n] == url;
                if n < before.len() {
                    assert(before[n] == url);
                    let k = choose|k: int| 0 <= k < shorter.len() && shorter[k] == url;
                    assert(all[k] == url);
                } else {
                    assert(all[all.len() - 1] == url);
                }
            }
        }
    }
}

} // verus!
