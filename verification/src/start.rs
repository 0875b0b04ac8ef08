//! Taking up a torrent: everything about it that is settled before its file is looked at.
use crate::metainfo::Torrent;
#[allow(unused_imports)]
use crate::metainfo::{
    deduplicated, files_length, hash_bytes, law_digests_are_cut_into_twenties,
    law_given_length_comes_first, law_lengths_are_summed_up, law_main_tracker_comes_first,
    law_named_trackers_are_asked, law_wrapping_keeps_what_fits, split_hashes, texts, wrap_usize,
    wrapped_u64, wrapped_usize, File,
};
#[allow(unused_imports)]
use crate::outside::{hashable, sha1_digest, sha1_of};
#[allow(unused_imports)]
use crate::paths::{
    contents_path, copy_path, law_contents_are_kept_in_the_directory,
    law_copies_are_kept_in_the_session, save_path, session_path,
};
use vstd::prelude::*;

verus! {

/// What a torrent file settles.
#[derive(Debug)]
pub struct TorrentPlan {
    pub info_hash: [u8; 20],
    pub file_name: String,
    pub save_path: String,
    pub session_path: String,
    pub total_size: u64,
    pub piece_length: usize,
    pub hashes: Vec<[u8; 20]>,
    pub trackers: Vec<String>,
}

impl TorrentPlan {
    /// Whether this is what a torrent file settles: the torrent goes by the digest of
    /// `info_bytes`, its contents are kept under its name in `download_dir`, and its length, its
    /// pieces and its trackers are those that the file gives.
    pub open spec fn settles(
        self,
        torrent: Torrent,
        info_bytes: Seq<u8>,
        download_dir: Seq<char>,
    ) -> bool {
        &&& self.info_hash@ == sha1_of(info_bytes)
        &&& self.file_name@ == torrent.info.name@
        &&& self.save_path@ == contents_path(download_dir, torrent.info.name@)
        &&& self.session_path@ == copy_path(torrent.info.name@)
        &&& self.total_size == wrapped_u64(torrent.info.spec_length())
        &&& self.piece_length == wrapped_usize(torrent.info.piece_length as int)
        &&& hash_bytes(self.hashes@) == split_hashes(torrent.info.pieces@)
        &&& texts(self.trackers@) == deduplicated(torrent.named_trackers())
    }
}

/// Settles what a torrent file settles. `info_bytes` is the encoded form of the description of
/// the contents, by whose digest trackers and peers know the torrent.
pub fn start_torrent(torrent: &Torrent, info_bytes: &[u8], download_dir: &str) -> (plan:
    TorrentPlan)
    requires
        torrent.info.length_fits(),
        hashable(info_bytes@.len()),
    ensures
        plan.settles(*torrent, info_bytes@, download_dir@),
{
    let name = torrent.info.name.as_str();
    TorrentPlan {
        info_hash: sha1_digest(info_bytes),
        file_name: name.to_owned(),
        save_path: save_path(download_dir, name),
        session_path: session_path(name),
        total_size: torrent.info.total_length(),
        piece_length: wrap_usize(torrent.info.piece_length),
        hashes: torrent.info.piece_hashes(),
        trackers: torrent.trackers(),
    }
}

/// What a plan says follows from the torrent file, field by field: the torrent goes by its digest,
/// its contents are kept under its name in the download directory and its copy in the session
/// directory, its length is the one that is given or else the sum of its files', piece `i` has the
/// twenty bytes at `20 * i` for its digest, and every tracker that is named is asked, the main one
/// first.
pub proof fn law_plan_follows_the_torrent_file(
    plan: TorrentPlan,
    torrent: Torrent,
    info_bytes: Seq<u8>,
    download_dir: Seq<char>,
)
    requires
        plan.settles(torrent, info_bytes, download_dir),
        torrent.info.length_fits(),
    ensures
        plan.info_hash@ == sha1_of(info_bytes),
        plan.file_name@ == torrent.info.name@,
        plan.save_path@ == download_dir.push('/') + torrent.info.name@,
        plan.session_path@ == seq!['s', 'e', 's', 's', 'i', 'o', 'n', '/'] + torrent.info.name@
            + seq!['.', 't', 'o', 'r', 'r', 'e', 'n', 't'],
        torrent.info.length matches Some(length) ==> plan.total_size == (if length >= 0 {
            length as int
        } else {
            length + 0x1_0000_0000_0000_0000
        }),
        torrent.info.length is None ==> (torrent.info.files matches Some(files) ==> {
            let sum = files@.map_values(|f: File| f.length as int).fold_left(
                0int,
                |sum: int, length: int| sum + length,
            );
            plan.total_size == (if sum >= 0 {
                sum
            } else {
                sum + 0x1_0000_0000_0000_0000
            })
        }),
        torrent.info.length is None && torrent.info.files is None ==> plan.total_size == 0,
        0 <= torrent.info.piece_length <= usize::MAX ==> plan.piece_length
            == torrent.info.piece_length,
        (torrent.info.piece_length - plan.piece_length) % (usize::MAX + 1) == 0,
        plan.hashes@.len() == torrent.info.pieces@.len() / 20,
        forall|i: int, j: int|
            0 <= i < plan.hashes@.len() && 0 <= j < 20 ==> #[trigger] plan.hashes@[i]@[j]
                == torrent.info.pieces@[20 * i + j],
        plan.trackers@.map_values(|url: String| url@) == deduplicated(torrent.named_trackers()),
        plan.trackers@.len() > 0,
        plan.trackers@[0]@ == torrent.announce@,
        forall|url: Seq<char>|
            #![trigger torrent.named_trackers().contains(url)]
            torrent.named_trackers().contains(url) <==> exists|k: int|
                0 <= k < plan.trackers@.len() && #[trigger] plan.trackers@[k]@ == url,
{
    let info = torrent.info;
    law_contents_are_kept_in_the_directory(download_dir, info.name@);
    law_copies_are_kept_in_the_session(info.name@);
    law_given_length_comes_first(info);
    law_wrapping_keeps_what_fits(info.piece_length);
    law_digests_are_cut_into_twenties(info.pieces@);
    law_main_tracker_comes_first(torrent);
    law_named_trackers_are_asked(torrent.named_trackers());
    let path = contents_path(download_dir, info.name@);
    assert(path == path.take(download_dir.len() as int).push(path[download_dir.len() as int])
        + path.skip(download_dir.len() + 1int));
    let copy = copy_path(info.name@);
    let n = info.name@.len();
    assert(copy == copy.take(8) + copy.subrange(8, 8int + n) + copy.skip(8int + n));
    if info.length is None {
        if let Some(files) = info.files {
            law_lengths_are_summed_up(files@);
            assert(files@.take(files@.len() as int) == files@);
            assert(i64::MIN <= files_length(files@.take(files@.len() as int)) <= i64::MAX);
            law_wrapping_keeps_what_fits(files_length(files@) as i64);
        }
    }
    if let Some(length) = info.length {
        law_wrapping_keeps_what_fits(length);
    }
    law_wrapping_keeps_what_fits(0);
    assert forall|i: int, j: int|
        0 <= i < plan.hashes@.len() && 0 <= j < 20 implies #[trigger] plan.hashes@[i]@[j]
        == info.pieces@[20 * i + j] by {
        assert(hash_bytes(plan.hashes@)[i] == plan.hashes@[i]@);
        assert(split_hashes(info.pieces@)[i][j] == info.pieces@[20 * i + j]);
    }
    let urls = texts(plan.trackers@);
    assert(urls[0] == plan.trackers@[0]@);
    assert(plan.trackers@.map_values(|url: String| url@) == urls);
    assert forall|url: Seq<char>|
        #![trigger torrent.named_trackers().contains(url)]
        torrent.named_trackers().contains(url) <==> exists|k: int|
            0 <= k < plan.trackers@.len() && #[trigger] plan.trackers@[k]@ == url by {
        if torrent.named_trackers().contains(url) {
            assert(urls.contains(url));
            let k = choose|k: int| 0 <= k < urls.len() && urls[k] == url;
            assert(plan.trackers@[k]@ == url);
        }
        if exists|k: int| 0 <= k < plan.trackers@.len() && #[trigger] plan.trackers@[k]@ == url {
            let k = choose|k: int|
                0 <= k < plan.trackers@.len() && #[trigger] plan.trackers@[k]@ == url;
            assert(urls[k] == url);
            assert(urls.contains(url));
        }
    }
}

} // verus!
