//! What the client as a whole keeps: its settings and the torrents that are running.
use crate::bytes::same_bytes;
#[allow(unused_imports)]
use crate::manager::{law_shown_id_leads_back, signed_id, unsigned_id, ManagerView};
use crate::manager::{to_unsigned_id, DownloadManager};
#[allow(unused_imports)]
use crate::metainfo::Torrent;
use crate::outside::random_between;
#[allow(unused_imports)]
use crate::outside::sha1_of;
#[allow(unused_imports)]
use crate::paths::{copy_path, law_copies_are_kept_in_the_session};
use crate::paths::session_path;
#[allow(unused_imports)]
use crate::start::TorrentPlan;
#[allow(unused_imports)]
use crate::wire::{handshake_bytes, law_handshake_names_its_torrent};
use vstd::prelude::*;
use vstd::slice::slice_subrange;

verus! {

/// The settings.
#[derive(Debug)]
pub struct AppConfig {
    pub download_dir: String,
}

impl AppConfig {
    /// The settings that were stored, or the default ones where none could be read.
    pub fn load(stored: Option<AppConfig>) -> (config: AppConfig)
        ensures
            stored matches Some(s) ==> config == s,
            stored is None ==> config.download_dir@ == "downloads"@,
    {
        match stored {
            Some(config) => config,
            None => AppConfig { download_dir: "downloads".to_owned() },
        }
    }
}

/// The lowest port to listen on.
pub const LOWEST_PORT: u16 = 10000;

/// A port to listen on, drawn at random from those that need no privilege.
pub fn get_random_port() -> (port: u16)
    ensures
        10000 <= port <= 65535,
{
    random_between(LOWEST_PORT, 65535)
}

/// A running torrent: what it is found by, and a handle on its download.
#[derive(Debug)]
pub struct TorrentEntry<H> {
    pub id: u32,
    pub info_hash: [u8; 20],
    pub file_name: String,
    pub save_path: String,
    pub handle: H,
}

impl<H> TorrentEntry<H> {
    /// Whether this is the entry for a download.
    pub open spec fn stands_for(self, m: ManagerView) -> bool {
        &&& self.id == m.id
        &&& self.info_hash@ == m.info_hash
        &&& self.file_name@ == m.file_name
        &&& self.save_path@ == m.save_path
    }

    /// The names of the files that a torrent has on disk.
    pub open spec fn paths(self) -> (Seq<char>, Seq<char>) {
        (self.save_path@, copy_path(self.file_name@))
    }

    /// The entry for a download.
    pub fn new(manager: &DownloadManager, handle: H) -> (entry: Self)
        ensures
            entry.stands_for(manager@),
            entry.handle == handle,
    {
        TorrentEntry {
            id: manager.id,
            info_hash: manager.info_hash,
            file_name: manager.file_name.clone(),
            save_path: manager.save_path.clone(),
            handle,
        }
    }

    /// The files that a torrent has on disk: its contents and the copy of its torrent file.
    pub fn files(&self) -> (paths: (String, String))
        ensures
            (paths.0@, paths.1@) == self.paths(),
    {
        (self.save_path.clone(), session_path(self.file_name.as_str()))
    }
}

/// The settings in force and the torrents that are running, in the order in which they came.
#[derive(Debug)]
pub struct AppState<H> {
    pub torrents: Vec<TorrentEntry<H>>,
    pub download_dir: String,
}

/// Whether the torrent at `i` is the first with this digest.
pub open spec fn first_with_hash<H>(
    torrents: Seq<TorrentEntry<H>>,
    info_hash: Seq<u8>,
    i: int,
) -> bool {
    &&& 0 <= i < torrents.len()
    &&& torrents[i].info_hash@ == info_hash
    &&& forall|j: int| 0 <= j < i ==> (#[trigger] torrents[j]).info_hash@ != info_hash
}

/// Whether the torrent at `i` is the first with this number.
pub open spec fn first_with_id<H>(torrents: Seq<TorrentEntry<H>>, id: int, i: int) -> bool {
    &&& 0 <= i < torrents.len()
    &&& torrents[i].id == id
    &&& forall|j: int| 0 <= j < i ==> (#[trigger] torrents[j]).id != id
}

impl<H> AppState<H> {
    /// The state at the start: the settings, and no torrents.
    pub fn new(config: AppConfig) -> (state: Self)
        ensures
            state.torrents@ == Seq::<TorrentEntry<H>>::empty(),
            state.download_dir@ == config.download_dir@,
    {
        AppState { torrents: Vec::new(), download_dir: config.download_dir }
    }

    /// Adds a torrent.
    pub fn add(&mut self, entry: TorrentEntry<H>)
        ensures
            final(self).torrents@ == old(self).torrents@.push(entry),
            final(self).download_dir@ == old(self).download_dir@,
    {
        self.torrents.push(entry);
    }

    /// Has later torrents keep their contents in another directory.
    pub fn set_download_dir(&mut self, dir: String)
        ensures
            final(self).torrents@ == old(self).torrents@,
            final(self).download_dir@ == dir@,
    {
        self.download_dir = dir;
    }

    /// The place of the first torrent that a peer's greeting asks for.
    pub fn find_by_handshake(&self, greeting: &[u8]) -> (found: Option<usize>)
        requires
            greeting@.len() >= 48,
        ensures
            found matches Some(i) ==> first_with_hash(
                self.torrents@,
                greeting@.subrange(28, 48),
                i as int,
            ),
            found is None ==> forall|j: int|
                0 <= j < self.torrents@.len() ==> (#[trigger] self.torrents@[j]).info_hash@
                    != greeting@.subrange(28, 48),
    {
        let wanted = slice_subrange(greeting, 28, 48);
        let mut i: usize = 0;
        while i < self.torrents.len()
            invariant
                i <= self.torrents@.len(),
                wanted@ == greeting@.subrange(28, 48),
                forall|j: int|
                    0 <= j < i ==> (#[trigger] self.torrents@[j]).info_hash@ != wanted@,
            decreases self.torrents@.len() - i,
        {
            if same_bytes(&self.torrents[i].info_hash, wanted) {
                return Some(i);
            }
            i += 1;
        }
        None
    }

    /// Takes out the first torrent that is shown under this number.
    pub fn remove(&mut self, shown_id: i32) -> (removed: Option<TorrentEntry<H>>)
        ensures
            final(self).download_dir@ == old(self).download_dir@,
            removed matches Some(entry) ==> exists|i: int|
                #[trigger] first_with_id(old(self).torrents@, unsigned_id(shown_id), i) && entry
                    == old(self).torrents@[i] && final(self).torrents@ == old(
                    self,
                ).torrents@.remove(i),
            removed is None ==> final(self).torrents@ == old(self).torrents@ && forall|j: int|
                0 <= j < old(self).torrents@.len() ==> (#[trigger] old(self).torrents@[j]).id
                    != unsigned_id(shown_id),
    {
        let id: u32 = to_unsigned_id(shown_id);
        let mut i: usize = 0;
        while i < self.torrents.len()
            invariant
                i <= self.torrents@.len(),
                self.torrents@ == old(self).torrents@,
                self.download_dir == old(self).download_dir,
                id == unsigned_id(shown_id),
                forall|j: int| 0 <= j < i ==> (#[trigger] self.torrents@[j]).id != id,
            decreases self.torrents@.len() - i,
        {
            if self.torrents[i].id == id {
                assert(first_with_id(old(self).torrents@, unsigned_id(shown_id), i as int));
                return Some(self.torrents.remove(i));
            }
            i += 1;
        }
        None
    }
}

/// A peer that greets with the digest of a running torrent is brought to that torrent: to the first
/// that has the digest.
pub proof fn law_greeting_finds_its_torrent<H>(
    torrents: Seq<TorrentEntry<H>>,
    info_hash: Seq<u8>,
    i: int,
)
    requires
        info_hash.len() == 20,
    ensures
        first_with_hash(torrents, handshake_bytes(info_hash).subrange(28, 48), i)
            == first_with_hash(torrents, info_hash, i),
{
    law_handshake_names_its_torrent(info_hash);
}

/// At most one place is the first with a digest, and at most one the first with a number.
pub proof fn law_first_is_unique<H>(
    torrents: Seq<TorrentEntry<H>>,
    info_hash: Seq<u8>,
    id: int,
    i: int,
    j: int,
)
    ensures
        first_with_hash(torrents, info_hash, i) && first_with_hash(torrents, info_hash, j) ==> i
            == j,
        first_with_id(torrents, id, i) && first_with_id(torrents, id, j) ==> i == j,
{
}

/// Taking out a torrent undoes adding it, when no other has its number.
pub proof fn law_removing_undoes_adding<H>(
    torrents: Seq<TorrentEntry<H>>,
    entry: TorrentEntry<H>,
    i: int,
)
    requires
        forall|j: int| 0 <= j < torrents.len() ==> (#[trigger] torrents[j]).id != entry.id,
        first_with_id(torrents.push(entry), entry.id as int, i),
    ensures
        torrents.push(entry)[i] == entry,
        torrents.push(entry).remove(i) == torrents,
{
    let longer = torrents.push(entry);
    if i < torrents.len() {
        assert(longer[i] == torrents[i]);
    }
    assert(longer.remove(torrents.len() as int) == torrents);
}

/// What is deleted with a torrent is what was made for it: its contents, and the copy that would
/// bring it back after a restart.
pub proof fn law_deleting_removes_what_starting_made<H>(
    torrent: Torrent,
    info_bytes: Seq<u8>,
    download_dir: Seq<char>,
    plan: TorrentPlan,
    id: u32,
    todo: Seq<usize>,
    finished: int,
    now: u64,
    entry: TorrentEntry<H>,
)
    requires
        plan.settles(torrent, info_bytes, download_dir),
        entry.stands_for(ManagerView::fresh(plan, id, todo, finished, now)),
    ensures
        entry.paths() == (plan.save_path@, plan.session_path@),
        entry.info_hash@ == sha1_of(info_bytes),
{
}

/// A torrent that runs is found by its digest and by its number: the one found has it, and none
/// before it does. Where none is found none has it.
pub proof fn law_running_torrents_are_found<H>(
    torrents: Seq<TorrentEntry<H>>,
    info_hash: Seq<u8>,
    id: int,
)
    ensures
        forall|i: int| #[trigger]
            first_with_hash(torrents, info_hash, i) ==> 0 <= i < torrents.len()
                && torrents[i].info_hash@ == info_hash,
        forall|i: int, j: int|
            #![trigger first_with_hash(torrents, info_hash, i), torrents[j]]
            first_with_hash(torrents, info_hash, i) && 0 <= j < torrents.len()
                && torrents[j].info_hash@ == info_hash ==> i <= j,
        (exists|j: int|
            0 <= j < torrents.len() && (#[trigger] torrents[j]).info_hash@ == info_hash)
            ==> exists|i: int| first_with_hash(torrents, info_hash, i),
        forall|i: int| #[trigger]
            first_with_id(torrents, id, i) ==> 0 <= i < torrents.len() && torrents[i].id == id,
        forall|i: int, j: int|
            #![trigger first_with_id(torrents, id, i), torrents[j]]
            first_with_id(torrents, id, i) && 0 <= j < torrents.len() && torrents[j].id == id
                ==> i <= j,
        (exists|j: int| 0 <= j < torrents.len() && (#[trigger] torrents[j]).id == id)
            ==> exists|i: int| first_with_id(torrents, id, i),
{
    if exists|j: int| 0 <= j < torrents.len() && (#[trigger] torrents[j]).info_hash@ == info_hash {
        let j = choose|j: int|
            0 <= j < torrents.len() && (#[trigger] torrents[j]).info_hash@ == info_hash;
        lemma_first_with_hash(torrents, info_hash, j);
    }
    if exists|j: int| 0 <= j < torrents.len() && (#[trigger] torrents[j]).id == id {
        let j = choose|j: int| 0 <= j < torrents.len() && (#[trigger] torrents[j]).id == id;
        lemma_first_with_id(torrents, id, j);
    }
}

/// Where some torrent has a digest there is a first that has it.
proof fn lemma_first_with_hash<H>(torrents: Seq<TorrentEntry<H>>, info_hash: Seq<u8>, j: int)
    requires
        0 <= j < torrents.len(),
        torrents[j].info_hash@ == info_hash,
    ensures
        exists|i: int| first_with_hash(torrents, info_hash, i),
    decreases j,
{
    if exists|k: int| 0 <= k < j && (#[trigger] torrents[k]).info_hash@ == info_hash {
        let k = choose|k: int| 0 <= k < j && (#[trigger] torrents[k]).info_hash@ == info_hash;
        lemma_first_with_hash(torrents, info_hash, k);
    } else {
        assert(first_with_hash(torrents, info_hash, j));
    }
}

/// Where some torrent has a number there is a first that has it.
proof fn lemma_first_with_id<H>(torrents: Seq<TorrentEntry<H>>, id: int, j: int)
    requires
        0 <= j < torrents.len(),
        torrents[j].id == id,
    ensures
        exists|i: int| first_with_id(torrents, id, i),
    decreases j,
{
    if exists|k: int| 0 <= k < j && (#[trigger] torrents[k]).id == id {
        let k = choose|k: int| 0 <= k < j && (#[trigger] torrents[k]).id == id;
        lemma_first_with_id(torrents, id, k);
    } else {
        assert(first_with_id(torrents, id, j));
    }
}

/// The entry for a download carries its number, its digest and its names, so that the number under
/// which the download is shown leads to the entry, and what the entry says is on disk is the
/// contents and the copy under the download's name.
pub proof fn law_shown_number_leads_to_the_entry<H>(
    torrents: Seq<TorrentEntry<H>>,
    m: ManagerView,
    entry: TorrentEntry<H>,
    i: int,
)
    requires
        entry.stands_for(m),
        torrents.contains(entry),
        forall|j: int, k: int|
            0 <= j < k < torrents.len() ==> (#[trigger] torrents[j]).id != (
            #[trigger] torrents[k]).id,
        first_with_id(torrents, unsigned_id(signed_id(m.id) as i32), i),
    ensures
        torrents[i] == entry,
        entry.id == m.id,
        entry.info_hash@ == m.info_hash,
        entry.file_name@ == m.file_name,
        entry.save_path@ == m.save_path,
        entry.paths().0 == m.save_path,
        entry.paths().1 == seq!['s', 'e', 's', 's', 'i', 'o', 'n', '/'] + m.file_name + seq![
            '.',
            't',
            'o',
            'r',
            'r',
            'e',
            'n',
            't',
        ],
{
    law_shown_id_leads_back(m.id);
    law_copies_are_kept_in_the_session(m.file_name);
    let copy = copy_path(m.file_name);
    let n = m.file_name.len();
    assert(copy == copy.take(8) + copy.subrange(8, 8int + n) + copy.skip(8int + n));
    let k = choose|k: int| 0 <= k < torrents.len() && torrents[k] == entry;
    if k < i {
        assert(torrents[k].id != torrents[i].id);
    } else if i < k {
        assert(torrents[i].id != torrents[k].id);
    }
}

} // verus!
