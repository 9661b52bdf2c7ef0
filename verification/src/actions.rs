//! The client's actions, as what they compute: the objects and files to
//! write, from what was read.
use vstd::prelude::*;

use crate::indx::{
    entry_storable, entry_wf, index_bytes, lemma_index_roundtrip, lemma_sort_entries_props, parse_index,
    sort_entries, views, write_index, EntryView, IndexError, IndexFile,
};
use crate::objects::{commit_body, commit_raw, stored, write_commit, StoredObject};
use crate::os::error::{known_code, type_of, ErrorCode, ErrorType};
use crate::os::fs::FileInfo;
use crate::sha1::sha1_digest;
use crate::tree::{no_leading_slash, objects_stored, tree_objects, tree_raw, write_tree};

verus! {

/// A file to add to the index: its name relative to the repository, the
/// hash of its blob, and its size and times.
pub struct AddedFile {
    pub name: String,
    pub sha1: [u8; 20],
    pub info: FileInfo,
}

/// The mode of a regular file in the index.
pub open spec fn file_mode() -> u32 {
    0o100644
}

/// The index entry of an added file: a regular file, with no device, inode,
/// user or group.
pub open spec fn added_entry(f: AddedFile) -> EntryView {
    EntryView {
        sha1: f.sha1@,
        name: f.name@,
        fields: seq![
            f.info.ctime_sec,
            f.info.ctime_nsec,
            f.info.mtime_sec,
            f.info.mtime_nsec,
            0u32,
            0u32,
            file_mode(),
            0u32,
            0u32,
            f.info.size,
        ],
    }
}

/// The index entries of the added files.
pub open spec fn added_entries(files: Seq<AddedFile>) -> Seq<EntryView> {
    files.map_values(|f: AddedFile| added_entry(f))
}

/// Adds `files` to the index `index`: the new index file's bytes, or the
/// error that no pattern was given.
pub fn add(patterns: &[String], index: Vec<IndexFile>, files: Vec<AddedFile>) -> (r: Result<
    Vec<u8>,
    String,
>)
    requires
        forall|i: int| 0 <= i < index@.len() ==> entry_storable(#[trigger] index@[i]@),
        forall|i: int| 0 <= i < files@.len() ==> entry_storable(#[trigger] added_entry(files@[i])),
    ensures
        patterns@.len() == 0 ==> (r matches Err(e) && e@ == "No file patterns to add to index"@),
        patterns@.len() > 0 ==> (r matches Ok(bytes) && bytes@ == index_bytes(
            sort_entries(views(index@) + added_entries(files@)),
        )),
{
    if patterns.len() == 0 {
        return Err("No file patterns to add to index".to_owned());
    }
    let ghost v0 = views(index@);
    let mut index = index;
    let mut files = files;
    let ghost fs = files@;
    let n = files.len();
    let mut k: usize = 0;
    proof {
        assert(fs.take(0) =~= Seq::<AddedFile>::empty());
        assert(views(index@) =~= v0 + added_entries(fs.take(0)));
    }
    while k < n
        invariant
            k <= n,
            n == fs.len(),
            files@ == fs.skip(k as int),
            views(index@) == v0 + added_entries(fs.take(k as int)),
            forall|i: int| 0 <= i < index@.len() ==> entry_storable(#[trigger] index@[i]@),
            forall|i: int| 0 <= i < fs.len() ==> entry_storable(#[trigger] added_entry(fs[i])),
        decreases n - k,
    {
        let f = files.remove(0);
        proof {
            assert(f == fs[k as int]);
        }
        let e = IndexFile {
            sha1: f.sha1,
            name: f.name,
            mode: 0o100644,
            size: f.info.size,
            ctime_sec: f.info.ctime_sec,
            ctime_nsec: f.info.ctime_nsec,
            mtime_sec: f.info.mtime_sec,
            mtime_nsec: f.info.mtime_nsec,
            dev: 0,
            ino: 0,
            uid: 0,
            gid: 0,
        };
        proof {
            assert(e@ == added_entry(fs[k as int]));
        }
        let ghost i0 = index@;
        index.push(e);
        proof {
            assert(views(index@) =~= views(i0).push(e@));
            assert(fs.take(k + 1) =~= fs.take(k as int).push(fs[k as int]));
            assert(added_entries(fs.take(k + 1)) =~= added_entries(fs.take(k as int)).push(e@));
            assert(fs.skip(k as int).drop_first() =~= fs.skip(k + 1));
            assert forall|i: int| 0 <= i < index@.len() implies entry_storable(#[trigger] index@[i]@) by {
                if i < i0.len() {
                    assert(index@[i] == i0[i]);
                }
            }
        }
        k += 1;
    }
    proof {
        assert(fs.take(n as int) =~= fs);
    }
    Ok(write_index(index))
}

/// What reading the index file that `add` writes gives back: the entries
/// that were there and the files added, sorted by name.
pub proof fn lemma_add_then_read(index: Seq<IndexFile>, files: Seq<AddedFile>)
    requires
        index.len() + files.len() < 0x1_0000_0000,
        forall|i: int| 0 <= i < index.len() ==> entry_storable(#[trigger] index[i]@),
        forall|i: int| 0 <= i < files.len() ==> entry_storable(#[trigger] added_entry(files[i])),
    ensures
        parse_index(index_bytes(sort_entries(views(index) + added_entries(files)))) == Ok::<
            Seq<EntryView>,
            IndexError,
        >(sort_entries(views(index) + added_entries(files))),
{
    let all = views(index) + added_entries(files);
    lemma_sort_entries_props(all);
    let s = sort_entries(all);
    assert forall|i: int| 0 <= i < s.len() implies entry_wf(#[trigger] s[i]) && entry_storable(
        s[i],
    ) by {
        let k = choose|k: int| 0 <= k < all.len() && all[k] == s[i];
        if k < index.len() {
            assert(all[k] == index[k]@);
        } else {
            assert(all[k] == added_entry(files[k - index.len()]));
        }
    }
    lemma_index_roundtrip(s);
}

/// What a commit writes: the tree objects of the index, and the commit.
pub struct CommitObjects {
    pub trees: Vec<StoredObject>,
    pub commit: StoredObject,
}

/// The commit of the index `entries` with the message `msg`, on top of
/// `parent` if there is one, by the author and committer at the times and
/// time zones given: the objects to store, or the error that no message was
/// given.
pub fn commit(
    msg: Option<&String>,
    entries: &Vec<IndexFile>,
    parent: Option<[u8; 40]>,
    author_time: u64,
    author_tz: i16,
    committer_time: u64,
    committer_tz: i16,
) -> (r: Result<CommitObjects, String>)
    requires
        no_leading_slash(views(entries@)),
        author_tz != i16::MIN,
        committer_tz != i16::MIN,
    ensures
        msg is None ==> (r matches Err(e)
            && e@ == "the commit requires a message, specify it using the -m or --message flag"@),
        msg matches Some(m) ==> (r matches Ok(c) && objects_stored(
            c.trees@,
            tree_objects(views(entries@), Seq::empty()),
        ) && stored(
            c.commit,
            commit_raw(
                commit_body(
                    sha1_digest(tree_raw(views(entries@), Seq::empty())),
                    match parent {
                        Some(p) => Some(p@),
                        None => None,
                    },
                    author_time as nat,
                    author_tz as int,
                    committer_time as nat,
                    committer_tz as int,
                    m@,
                ),
            ),
        )),
{
    let msg = match msg {
        Some(m) => m,
        None => {
            return Err(
                "the commit requires a message, specify it using the -m or --message flag".to_owned(),
            );
        },
    };
    let (tree, trees) = write_tree(entries, "");
    proof {
        assert(""@ =~= Seq::<char>::empty()) by {
            reveal_strlit("");
        }
    }
    let commit = write_commit(
        &tree,
        parent,
        author_time,
        author_tz,
        committer_time,
        committer_tz,
        msg.as_str(),
    );
    Ok(CommitObjects { trees, commit })
}

/// Why creating the repository failed, by the error of creating `.git`:
/// it exists already, or something else went wrong.
pub fn init_error(e: &ErrorCode) -> (m: String)
    requires
        known_code(e.value()),
    ensures
        m@ == (if type_of(e.value()) == ErrorType::DirAlreadyExists {
            "git already initialized in this directory"@
        } else {
            "an unexpected error occurred while creating the git directory"@
        }),
{
    match e.typ() {
        ErrorType::DirAlreadyExists => "git already initialized in this directory".to_owned(),
        _ => "an unexpected error occurred while creating the git directory".to_owned(),
    }
}

} // verus!
