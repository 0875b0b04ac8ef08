//! The names of the files that a torrent has on disk.
use vstd::prelude::*;
use vstd::string::StringExecFns;

verus! {

/// Where the contents of a torrent are kept.
pub open spec fn contents_path(download_dir: Seq<char>, name: Seq<char>) -> Seq<char> {
    download_dir + "/"@ + name
}

/// Where a copy of the torrent file is kept, so that the download is taken up again after a
/// restart.
pub open spec fn copy_path(name: Seq<char>) -> Seq<char> {
    "session/"@ + name + ".torrent"@
}

/// Where the contents of a torrent are kept.
pub fn save_path(download_dir: &str, name: &str) -> (path: String)
    ensures
        path@ == contents_path(download_dir@, name@),
{
    let mut path = download_dir.to_owned();
    path.append("/");
    path.append(name);
    path
}

/// Where a copy of the torrent file is kept.
pub fn session_path(name: &str) -> (path: String)
    ensures
        path@ == copy_path(name@),
{
    let mut path = "session/".to_owned();
    path.append(name);
    path.append(".torrent");
    path
}

/// Torrents of different names keep their copies under different names, so that none takes the
/// place of another.
pub proof fn law_copies_are_kept_apart(a: Seq<char>, b: Seq<char>)
    requires
        copy_path(a) == copy_path(b),
    ensures
        a == b,
{
    law_copies_are_kept_in_the_session(a);
    law_copies_are_kept_in_the_session(b);
}

/// The contents of a torrent are kept in the download directory, under the torrent's name.
pub proof fn law_contents_are_kept_in_the_directory(download_dir: Seq<char>, name: Seq<char>)
    ensures
        contents_path(download_dir, name).len() == download_dir.len() + 1 + name.len(),
        contents_path(download_dir, name).take(download_dir.len() as int) == download_dir,
        contents_path(download_dir, name)[download_dir.len() as int] == '/',
        contents_path(download_dir, name).skip(download_dir.len() + 1int) == name,
{
    reveal_strlit("/");
    let path = contents_path(download_dir, name);
    assert(path.take(download_dir.len() as int) == download_dir);
    assert(path.skip(download_dir.len() + 1int) == name);
}

/// The copy of a torrent file is kept in the session directory, under the torrent's name, with the
/// ending of torrent files.
pub proof fn law_copies_are_kept_in_the_session(name: Seq<char>)
    ensures
        copy_path(name).len() == 8 + name.len() + 8,
        copy_path(name).take(8) == seq!['s', 'e', 's', 's', 'i', 'o', 'n', '/'],
        copy_path(name).subrange(8, 8int + name.len()) == name,
        copy_path(name).skip(8int + name.len()) == seq!['.', 't', 'o', 'r', 'r', 'e', 'n', 't'],
{
    reveal_strlit("session/");
    reveal_strlit(".torrent");
    let path = copy_path(name);
    assert(path.take(8) == seq!['s', 'e', 's', 's', 'i', 'o', 'n', '/']);
    assert(path.subrange(8, 8int + name.len()) == name);
    assert(path.skip(8int + name.len()) == seq!['.', 't', 'o', 'r', 'r', 'e', 'n', 't']);
}

} // verus!
