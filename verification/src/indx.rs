//! The git index file (`.git/index`, version 2): entries sorted by name,
//! each with its file's metadata and object hash, and a SHA-1 checksum.
use vstd::prelude::*;
use vstd::utf8::{decode_utf8, encode_utf8, valid_utf8};

use crate::sha1::{bytes_of_words, sha1_digest, Sha1};
use crate::zlib::compress::be_bytes;

verus! {

#[verifier::external_type_specification]
#[verifier::external_body]
pub struct ExUtf8Error(core::str::Utf8Error);

/// `core::str::from_utf8` (std): succeeds exactly on valid UTF-8, and the
/// string it gives has the bytes it was given, as std's documentation
/// states.
pub assume_specification[ core::str::from_utf8 ](v: &[u8]) -> (r: Result<&str, core::str::Utf8Error>)
    ensures
        r is Ok <==> valid_utf8(v@),
        r matches Ok(s) ==> s@ == decode_utf8(v@),
;

/// One entry of the index.
#[derive(Debug, Clone)]
pub struct IndexFile {
    pub sha1: [u8; 20],
    pub name: String,
    pub mode: u32,
    pub size: u32,
    pub ctime_sec: u32,
    pub ctime_nsec: u32,
    pub mtime_sec: u32,
    pub mtime_nsec: u32,
    pub dev: u32,
    pub ino: u32,
    pub uid: u32,
    pub gid: u32,
}

/// What an entry holds: its hash, its name, and its ten numeric fields in
/// the order of the file format (ctime seconds and nanoseconds, mtime
/// seconds and nanoseconds, dev, ino, mode, uid, gid, size).
pub struct EntryView {
    pub sha1: Seq<u8>,
    pub name: Seq<char>,
    pub fields: Seq<u32>,
}

impl View for IndexFile {
    type V = EntryView;

    open spec fn view(&self) -> EntryView {
        EntryView {
            sha1: self.sha1@,
            name: self.name@,
            fields: seq![
                self.ctime_sec,
                self.ctime_nsec,
                self.mtime_sec,
                self.mtime_nsec,
                self.dev,
                self.ino,
                self.mode,
                self.uid,
                self.gid,
                self.size,
            ],
        }
    }
}

/// Why an index file cannot be read.
#[derive(Debug, Clone, Copy, PartialEq, Eq)]
pub enum IndexError {
    TooSmall,
    InvalidSignature,
    UnsupportedVersion,
    Truncated,
    NameTooLong,
    InvalidUtf8,
    MissingTerminator,
    MissingChecksum,
    ChecksumMismatch,
}

impl IndexError {
    /// The message that tells the error.
    pub fn message(&self) -> (m: String)
        ensures
            m@ == match self {
                IndexError::TooSmall => "Index file too small"@,
                IndexError::InvalidSignature => "Invalid index signature"@,
                IndexError::UnsupportedVersion => "Unsupported index version"@,
                IndexError::Truncated => "index truncated"@,
                IndexError::NameTooLong => "index entry name too long or missing terminator"@,
                IndexError::InvalidUtf8 => "invalid UTF-8 in index entry name"@,
                IndexError::MissingTerminator => "missing null terminator after index entry name"@,
                IndexError::MissingChecksum => "index missing checksum"@,
                IndexError::ChecksumMismatch => "index checksum mismatch"@,
            },
    {
        match self {
            IndexError::TooSmall => "Index file too small".to_owned(),
            IndexError::InvalidSignature => "Invalid index signature".to_owned(),
            IndexError::UnsupportedVersion => "Unsupported index version".to_owned(),
            IndexError::Truncated => "index truncated".to_owned(),
            IndexError::NameTooLong => "index entry name too long or missing terminator".to_owned(),
            IndexError::InvalidUtf8 => "invalid UTF-8 in index entry name".to_owned(),
            IndexError::MissingTerminator => "missing null terminator after index entry name".to_owned(),
            IndexError::MissingChecksum => "index missing checksum".to_owned(),
            IndexError::ChecksumMismatch => "index checksum mismatch".to_owned(),
        }
    }
}

/// The index format version written and read.
pub open spec fn index_version() -> u32 {
    2
}

/// The big-endian number in the four bytes `d[i..i + 4]`.
pub open spec fn be32_at(d: Seq<u8>, i: int) -> u32 {
    (d[i] * 0x1000000 + d[i + 1] * 0x10000 + d[i + 2] * 0x100 + d[i + 3]) as u32
}

/// The big-endian number in the two bytes `d[i..i + 2]`.
pub open spec fn be16_at(d: Seq<u8>, i: int) -> u16 {
    (d[i] * 0x100 + d[i + 1]) as u16
}

/// The zero bytes after an entry of a name of `name_len` bytes, up to a
/// multiple of eight bytes.
pub open spec fn entry_padding(name_len: int) -> int {
    (8 - ((62 + name_len + 1) % 8)) % 8
}

/// The ten numeric fields of an entry, four big-endian bytes each.
pub open spec fn fields_bytes(f: Seq<u32>) -> Seq<u8> {
    be_bytes(f[0]) + be_bytes(f[1]) + be_bytes(f[2]) + be_bytes(f[3]) + be_bytes(f[4]) + be_bytes(
        f[5],
    ) + be_bytes(f[6]) + be_bytes(f[7]) + be_bytes(f[8]) + be_bytes(f[9])
}

/// The bytes of an entry: its ten numeric fields, its hash, the length of
/// its name, its name, and a zero byte plus padding.
pub open spec fn entry_bytes(e: EntryView) -> Seq<u8> {
    let name = encode_utf8(e.name);
    fields_bytes(e.fields) + e.sha1 + seq![(name.len() / 256) as u8, (name.len() % 256) as u8]
        + name + Seq::new((1 + entry_padding(name.len() as int)) as nat, |i: int| 0u8)
}

/// The bytes of a sequence of entries.
pub open spec fn entries_bytes(es: Seq<EntryView>) -> Seq<u8>
    decreases es.len(),
{
    if es.len() == 0 {
        Seq::empty()
    } else {
        entries_bytes(es.drop_last()) + entry_bytes(es.last())
    }
}

/// The signature that starts an index file: the ASCII bytes of "DIRC".
pub open spec fn index_signature() -> Seq<u8> {
    seq![0x44u8, 0x49u8, 0x52u8, 0x43u8]
}

/// The index file of `es`, without its checksum.
pub open spec fn index_content(es: Seq<EntryView>) -> Seq<u8> {
    index_signature() + be_bytes(index_version()) + be_bytes(
        (es.len() % 0x1_0000_0000) as u32,
    ) + entries_bytes(es)
}

/// The index file of `es`: its content and the SHA-1 hash of that.
pub open spec fn index_bytes(es: Seq<EntryView>) -> Seq<u8> {
    index_content(es) + bytes_of_words(sha1_digest(index_content(es)))
}

/// Byte strings in lexicographic order: `a` is no greater than `b`.
pub open spec fn bytes_le(a: Seq<u8>, b: Seq<u8>) -> bool
    decreases a.len(),
{
    if a.len() == 0 {
        true
    } else if b.len() == 0 {
        false
    } else if a[0] != b[0] {
        a[0] < b[0]
    } else {
        bytes_le(a.drop_first(), b.drop_first())
    }
}

/// The sort key of an entry: the bytes of its name.
pub open spec fn name_key(e: EntryView) -> Seq<u8> {
    encode_utf8(e.name)
}

/// `x` inserted into `sorted` after every entry whose name is no greater.
pub open spec fn insert_entry(sorted: Seq<EntryView>, x: EntryView) -> Seq<EntryView>
    decreases sorted.len(),
{
    if sorted.len() == 0 {
        seq![x]
    } else if bytes_le(name_key(sorted.last()), name_key(x)) {
        sorted.push(x)
    } else {
        insert_entry(sorted.drop_last(), x).push(sorted.last())
    }
}

/// The entries sorted by name, stably: entries of equal names keep their
/// order.
pub open spec fn sort_entries(es: Seq<EntryView>) -> Seq<EntryView>
    decreases es.len(),
{
    if es.len() == 0 {
        Seq::empty()
    } else {
        insert_entry(sort_entries(es.drop_last()), es.last())
    }
}

/// The views of a sequence of entries.
pub open spec fn views(es: Seq<IndexFile>) -> Seq<EntryView> {
    es.map_values(|e: IndexFile| e@)
}

/// Appends the four bytes of `v`, most significant first.
fn push_be32(out: &mut Vec<u8>, v: u32)
    ensures
        final(out)@ == old(out)@ + be_bytes(v),
{
    out.push((v / 0x1000000) as u8);
    out.push(((v / 0x10000) % 256) as u8);
    out.push(((v / 0x100) % 256) as u8);
    out.push((v % 256) as u8);
    proof {
        assert(out@ =~= old(out)@ + be_bytes(v));
    }
}

/// The bytes of `s`, as UTF-8.
pub(crate) fn name_bytes(s: &String) -> (b: &[u8])
    ensures
        b@ == encode_utf8(s@),
{
    s.as_str().as_bytes()
}

/// Whether `a` is no greater than `b` in lexicographic order.
pub(crate) fn bytes_le_exec(a: &[u8], b: &[u8]) -> (r: bool)
    ensures
        r == bytes_le(a@, b@),
{
    let mut i: usize = 0;
    assert(a@.skip(0) =~= a@);
    assert(b@.skip(0) =~= b@);
    while i < a.len() && i < b.len() && a[i] == b[i]
        invariant
            i <= a@.len(),
            i <= b@.len(),
            bytes_le(a@, b@) == bytes_le(a@.skip(i as int), b@.skip(i as int)),
        decreases a@.len() - i,
    {
        proof {
            assert(a@.skip(i as int).drop_first() =~= a@.skip(i + 1));
            assert(b@.skip(i as int).drop_first() =~= b@.skip(i + 1));
        }
        i += 1;
    }
    if i == a.len() {
        true
    } else if i == b.len() {
        false
    } else {
        a[i] < b[i]
    }
}

proof fn lemma_views_insert(s: Seq<IndexFile>, j: int, e: IndexFile)
    requires
        0 <= j <= s.len(),
    ensures
        views(s.insert(j, e)) == views(s).insert(j, e@),
{
    assert(views(s.insert(j, e)) =~= views(s).insert(j, e@));
}

/// Sorts the entries by name, keeping entries of equal names in order.
fn sort_by_name(entries: Vec<IndexFile>) -> (r: Vec<IndexFile>)
    ensures
        views(r@) == sort_entries(views(entries@)),
{
    let ghost orig = entries@;
    let mut entries = entries;
    let mut sorted: Vec<IndexFile> = Vec::new();
    let n = entries.len();
    let mut i: usize = 0;
    while i < n
        invariant
            n == orig.len(),
            i <= n,
            entries@ == orig.skip(i as int),
            views(sorted@) == sort_entries(views(orig.take(i as int))),
        decreases n - i,
    {
        let e = entries.remove(0);
        let ghost s = views(sorted@);
        let ghost x = e@;
        let mut j = sorted.len();
        proof {
            assert(s.take(j as int) =~= s);
            assert(s.skip(j as int) =~= Seq::<EntryView>::empty());
            assert(insert_entry(s, x) =~= insert_entry(s.take(j as int), x) + s.skip(j as int));
        }
        while j > 0 && !bytes_le_exec(name_bytes(&sorted[j - 1].name), name_bytes(&e.name))
            invariant
                j <= sorted@.len(),
                s == views(sorted@),
                x == e@,
                insert_entry(s, x) == insert_entry(s.take(j as int), x) + s.skip(j as int),
            decreases j,
        {
            proof {
                assert(s.take(j as int).last() == s[j - 1]);
                assert(s.take(j as int).drop_last() =~= s.take(j - 1));
                assert(insert_entry(s.take(j - 1), x).push(s[j - 1]) + s.skip(j as int) =~= insert_entry(
                    s.take(j - 1),
                    x,
                ) + s.skip(j - 1));
            }
            j -= 1;
        }
        proof {
            if j == 0 {
                assert(s.take(0) =~= Seq::<EntryView>::empty());
            }
            assert(insert_entry(s, x) =~= s.insert(j as int, x));
            lemma_views_insert(sorted@, j as int, e);
            assert(orig.take(i + 1).drop_last() =~= orig.take(i as int));
            assert(views(orig.take(i + 1)).drop_last() =~= views(orig.take(i as int)));
            assert(orig.skip(i as int).drop_first() =~= orig.skip(i + 1));
        }
        sorted.insert(j, e);
        i += 1;
    }
    proof {
        assert(orig.take(n as int) =~= orig);
    }
    sorted
}

/// An entry that `write_index` can store: its name has at most 4095 bytes.
pub open spec fn entry_storable(e: EntryView) -> bool {
    encode_utf8(e.name).len() <= 4095
}

proof fn lemma_insert_entry_props(sorted: Seq<EntryView>, x: EntryView)
    ensures
        insert_entry(sorted, x).len() == sorted.len() + 1,
        forall|i: int|
            0 <= i < insert_entry(sorted, x).len() ==> (#[trigger] insert_entry(sorted, x)[i] == x
                || sorted.contains(insert_entry(sorted, x)[i])),
    decreases sorted.len(),
{
    if sorted.len() > 0 && !bytes_le(name_key(sorted.last()), name_key(x)) {
        lemma_insert_entry_props(sorted.drop_last(), x);
        let r = insert_entry(sorted, x);
        assert forall|i: int| 0 <= i < r.len() implies (#[trigger] r[i] == x || sorted.contains(r[i])) by {
            if i < r.len() - 1 {
                let y = insert_entry(sorted.drop_last(), x)[i];
                if y != x {
                    let k = choose|k: int| 0 <= k < sorted.drop_last().len() && sorted.drop_last()[k] == y;
                    assert(sorted[k] == y);
                }
            } else {
                assert(sorted[sorted.len() - 1] == r[i]);
            }
        }
    } else if sorted.len() > 0 {
        let r = insert_entry(sorted, x);
        assert forall|i: int| 0 <= i < r.len() implies (#[trigger] r[i] == x || sorted.contains(r[i])) by {
            if i < sorted.len() {
                assert(sorted[i] == r[i]);
            }
        }
    }
}

/// Sorting keeps the number of entries, and every entry sorted is one of
/// the entries given.
pub proof fn lemma_sort_entries_props(es: Seq<EntryView>)
    ensures
        sort_entries(es).len() == es.len(),
        forall|i: int| 0 <= i < es.len() ==> es.contains(#[trigger] sort_entries(es)[i]),
    decreases es.len(),
{
    if es.len() > 0 {
        lemma_sort_entries_props(es.drop_last());
        let s = sort_entries(es.drop_last());
        lemma_insert_entry_props(s, es.last());
        assert forall|i: int| 0 <= i < es.len() implies es.contains(#[trigger] sort_entries(es)[i]) by {
            let y = sort_entries(es)[i];
            if y == es.last() {
                assert(es[es.len() - 1] == y);
            } else {
                let k = choose|k: int| 0 <= k < s.len() && s[k] == y;
                let m = choose|m: int| 0 <= m < es.drop_last().len() && es.drop_last()[m] == s[k];
                assert(es[m] == y);
            }
        }
    }
}

/// Any two byte strings are ordered one way or the other.
pub proof fn lemma_bytes_le_total(a: Seq<u8>, b: Seq<u8>)
    ensures
        bytes_le(a, b) || bytes_le(b, a),
    decreases a.len(),
{
    if a.len() > 0 && b.len() > 0 && a[0] == b[0] {
        lemma_bytes_le_total(a.drop_first(), b.drop_first());
    }
}

/// The order of byte strings is transitive.
pub proof fn lemma_bytes_le_transitive(a: Seq<u8>, b: Seq<u8>, c: Seq<u8>)
    requires
        bytes_le(a, b),
        bytes_le(b, c),
    ensures
        bytes_le(a, c),
    decreases a.len(),
{
    if a.len() > 0 && b.len() > 0 && c.len() > 0 && a[0] == b[0] && b[0] == c[0] {
        lemma_bytes_le_transitive(a.drop_first(), b.drop_first(), c.drop_first());
    }
}

/// Entries in order of their names.
pub open spec fn sorted_by_name(s: Seq<EntryView>) -> bool {
    forall|i: int, j: int| 0 <= i < j < s.len() ==> bytes_le(name_key(#[trigger] s[i]), name_key(#[trigger] s[j]))
}

proof fn lemma_insert_entry_sorted(s: Seq<EntryView>, x: EntryView)
    requires
        sorted_by_name(s),
    ensures
        sorted_by_name(insert_entry(s, x)),
        insert_entry(s, x).to_multiset() == s.to_multiset().insert(x),
    decreases s.len(),
{
    broadcast use vstd::seq_lib::group_to_multiset_ensures;

    if s.len() == 0 {
        assert(seq![x] =~= Seq::<EntryView>::empty().push(x));
    } else if bytes_le(name_key(s.last()), name_key(x)) {
        let r = s.push(x);
        assert forall|i: int, j: int| 0 <= i < j < r.len() implies bytes_le(
            name_key(#[trigger] r[i]),
            name_key(#[trigger] r[j]),
        ) by {
            if j == r.len() - 1 && i < s.len() - 1 {
                lemma_bytes_le_transitive(name_key(s[i]), name_key(s.last()), name_key(x));
            }
        }
    } else {
        let first = s.drop_last();
        assert(sorted_by_name(first));
        lemma_insert_entry_sorted(first, x);
        lemma_insert_entry_props(first, x);
        lemma_bytes_le_total(name_key(s.last()), name_key(x));
        let m = insert_entry(first, x);
        let r = m.push(s.last());
        assert forall|i: int, j: int| 0 <= i < j < r.len() implies bytes_le(
            name_key(#[trigger] r[i]),
            name_key(#[trigger] r[j]),
        ) by {
            if j == r.len() - 1 {
                if m[i] != x {
                    let k = choose|k: int| 0 <= k < first.len() && first[k] == m[i];
                    assert(s[k] == m[i]);
                    assert(bytes_le(name_key(s[k]), name_key(s[s.len() - 1])));
                }
            }
        }
        assert(s =~= first.push(s.last()));
    }
}

/// Sorting gives the entries in order of their names, each as often as
/// given.
pub proof fn lemma_sort_entries_sorted(es: Seq<EntryView>)
    ensures
        sorted_by_name(sort_entries(es)),
        sort_entries(es).to_multiset() == es.to_multiset(),
    decreases es.len(),
{
    broadcast use vstd::seq_lib::group_to_multiset_ensures;

    if es.len() == 0 {
        assert(sort_entries(es).to_multiset() =~= es.to_multiset());
    } else {
        lemma_sort_entries_sorted(es.drop_last());
        lemma_insert_entry_sorted(sort_entries(es.drop_last()), es.last());
        assert(es =~= es.drop_last().push(es.last()));
    }
}

/// A name comes before every longer name that it begins: `a` is no greater
/// than `a + s`, and, when `s` is not empty, `a + s` is greater than `a`.
pub proof fn lemma_bytes_le_prefix(a: Seq<u8>, s: Seq<u8>)
    ensures
        bytes_le(a, a + s),
        s.len() > 0 ==> !bytes_le(a + s, a),
    decreases a.len(),
{
    if a.len() > 0 {
        assert((a + s)[0] == a[0]);
        assert((a + s).drop_first() =~= a.drop_first() + s);
        lemma_bytes_le_prefix(a.drop_first(), s);
    } else {
        assert(a + s =~= s);
    }
}

/// Two names that agree on their first `i` bytes and differ at byte `i`
/// are ordered by that byte alone.
pub proof fn lemma_bytes_le_first_difference(a: Seq<u8>, b: Seq<u8>, i: int)
    requires
        0 <= i < a.len(),
        i < b.len(),
        a.take(i) == b.take(i),
        a[i] < b[i],
    ensures
        bytes_le(a, b),
        !bytes_le(b, a),
    decreases i,
{
    if i > 0 {
        assert(a[0] == a.take(i)[0]);
        assert(b[0] == b.take(i)[0]);
        assert(a.drop_first().take(i - 1) =~= b.drop_first().take(i - 1)) by {
            assert forall|k: int| 0 <= k < i - 1 implies a.drop_first()[k] == b.drop_first()[k] by {
                assert(a.take(i)[k + 1] == a[k + 1]);
                assert(b.take(i)[k + 1] == b[k + 1]);
                assert(a.take(i)[k + 1] == b.take(i)[k + 1]);
                assert(a.drop_first()[k] == a[k + 1]);
                assert(b.drop_first()[k] == b[k + 1]);
            }
        }
        lemma_bytes_le_first_difference(a.drop_first(), b.drop_first(), i - 1);
    }
}

/// Every byte string is no greater than itself.
pub proof fn lemma_bytes_le_reflexive(a: Seq<u8>)
    ensures
        bytes_le(a, a),
    decreases a.len(),
{
    if a.len() > 0 {
        lemma_bytes_le_reflexive(a.drop_first());
    }
}

/// Whether an entry's name has the bytes `k`.
pub open spec fn named(k: Seq<u8>) -> spec_fn(EntryView) -> bool {
    |e: EntryView| name_key(e) == k
}

proof fn lemma_filter_push(s: Seq<EntryView>, x: EntryView, k: Seq<u8>)
    ensures
        s.push(x).filter(named(k)) == if name_key(x) == k {
            s.filter(named(k)).push(x)
        } else {
            s.filter(named(k))
        },
{
    s.lemma_filter_push(x, named(k));
    assert(named(k)(x) == (name_key(x) == k));
}

proof fn lemma_insert_entry_stable(s: Seq<EntryView>, x: EntryView, k: Seq<u8>)
    ensures
        insert_entry(s, x).filter(named(k)) == if name_key(x) == k {
            s.filter(named(k)).push(x)
        } else {
            s.filter(named(k))
        },
    decreases s.len(),
{
    if s.len() == 0 {
        lemma_filter_push(s, x, k);
        assert(seq![x] =~= s.push(x));
        assert(s.filter(named(k)) =~= s) by {
            reveal(Seq::filter);
        }
    } else if bytes_le(name_key(s.last()), name_key(x)) {
        lemma_filter_push(s, x, k);
    } else {
        let first = s.drop_last();
        lemma_insert_entry_stable(first, x, k);
        let m = insert_entry(first, x);
        lemma_filter_push(m, s.last(), k);
        lemma_filter_push(first, s.last(), k);
        assert(s =~= first.push(s.last()));
        if name_key(x) == k {
            lemma_bytes_le_reflexive(k);
            assert(name_key(s.last()) != k);
        }
    }
}

/// Sorting keeps the entries of one name in the order given.
pub proof fn lemma_sort_entries_stable(es: Seq<EntryView>, k: Seq<u8>)
    ensures
        sort_entries(es).filter(named(k)) == es.filter(named(k)),
    decreases es.len(),
{
    if es.len() > 0 {
        lemma_sort_entries_stable(es.drop_last(), k);
        lemma_insert_entry_stable(sort_entries(es.drop_last()), es.last(), k);
        lemma_filter_push(es.drop_last(), es.last(), k);
        assert(es =~= es.drop_last().push(es.last()));
    }
}

/// Appends the bytes of one entry.
fn push_entry(out: &mut Vec<u8>, e: &IndexFile)
    requires
        entry_storable(e@),
    ensures
        final(out)@ == old(out)@ + entry_bytes(e@),
{
    let ghost o0 = out@;
    push_be32(out, e.ctime_sec);
    push_be32(out, e.ctime_nsec);
    push_be32(out, e.mtime_sec);
    push_be32(out, e.mtime_nsec);
    push_be32(out, e.dev);
    push_be32(out, e.ino);
    push_be32(out, e.mode);
    push_be32(out, e.uid);
    push_be32(out, e.gid);
    push_be32(out, e.size);
    proof {
        assert(out@ =~= o0 + fields_bytes(e@.fields));
    }
    let ghost o1 = out@;
    out.extend_from_slice(e.sha1.as_slice());
    let name = name_bytes(&e.name);
    let name_len = name.len();
    out.push((name_len / 256) as u8);
    out.push((name_len % 256) as u8);
    out.extend_from_slice(name);
    proof {
        assert(out@ =~= o1 + e@.sha1 + seq![(name_len / 256) as u8, (name_len % 256) as u8]
            + name@);
    }
    let ghost o2 = out@;
    out.push(0);
    let total_len = 62 + name_len + 1;
    let padding = (8 - (total_len % 8)) % 8;
    let ghost before = out@;
    let mut k: usize = 0;
    while k < padding
        invariant
            k <= padding,
            out@ == before + Seq::new(k as nat, |i: int| 0u8),
        decreases padding - k,
    {
        out.push(0);
        proof {
            assert(out@ =~= before + Seq::new((k + 1) as nat, |i: int| 0u8));
        }
        k += 1;
    }
    proof {
        assert(out@ =~= o2 + Seq::new((1 + padding) as nat, |i: int| 0u8));
        assert(out@ =~= old(out)@ + entry_bytes(e@));
    }
}

/// The contents of the index file of `entries`: the header, the entries
/// sorted by name (entries of equal names keep their order), and the SHA-1
/// checksum of all that.
pub fn write_index(entries: Vec<IndexFile>) -> (content: Vec<u8>)
    requires
        forall|i: int| 0 <= i < entries@.len() ==> entry_storable(#[trigger] entries@[i]@),
    ensures
        content@ == index_bytes(sort_entries(views(entries@))),
{
    let ghost vs = views(entries@);
    let mut header: Vec<u8> = Vec::new();
    header.push(0x44);
    header.push(0x49);
    header.push(0x52);
    header.push(0x43);
    push_be32(&mut header, 2);
    let count = (entries.len() as u64 % 0x1_0000_0000) as u32;
    push_be32(&mut header, count);
    let entries = sort_by_name(entries);
    proof {
        lemma_sort_entries_props(vs);
        assert forall|i: int| 0 <= i < entries@.len() implies entry_storable(#[trigger] entries@[i]@) by {
            assert(views(entries@)[i] == entries@[i]@);
            let k = choose|k: int| 0 <= k < vs.len() && vs[k] == views(entries@)[i];
        }
    }
    let mut body: Vec<u8> = Vec::new();
    let n = entries.len();
    let mut i: usize = 0;
    while i < n
        invariant
            n == entries@.len(),
            i <= n,
            forall|k: int| 0 <= k < n ==> entry_storable(#[trigger] entries@[k]@),
            body@ == entries_bytes(views(entries@).take(i as int)),
        decreases n - i,
    {
        push_entry(&mut body, &entries[i]);
        proof {
            assert(views(entries@).take(i + 1).drop_last() =~= views(entries@).take(i as int));
        }
        i += 1;
    }
    let mut content: Vec<u8> = Vec::new();
    content.extend_from_slice(header.as_slice());
    content.extend_from_slice(body.as_slice());
    proof {
        assert(views(entries@).take(n as int) =~= views(entries@));
        assert(content@ =~= index_content(sort_entries(vs)));
    }
    let mut hasher = Sha1::new();
    hasher.encrypt(content.as_slice());
    let hash = hasher.bytes();
    content.extend_from_slice(hash.as_slice());
    proof {
        assert(content@ =~= index_bytes(sort_entries(vs)));
    }
    content
}

/// Reads the entry at byte `pos` of the index file `d`: the entry and the
/// position after it, or why it cannot be read.
#[verifier::opaque]
pub open spec fn parse_entry(d: Seq<u8>, pos: int) -> Result<(EntryView, int), IndexError> {
    if pos + 84 > d.len() {
        Err(IndexError::Truncated)
    } else {
        let fields = Seq::new(10, |k: int| be32_at(d, pos + 4 * k));
        let sha1 = d.subrange(pos + 40, pos + 60);
        let name_len = (be16_at(d, pos + 60) & 0x0FFFu16) as int;
        let p = pos + 62;
        if p + name_len + 1 > d.len() - 20 {
            Err(IndexError::NameTooLong)
        } else if !valid_utf8(d.subrange(p, p + name_len)) {
            Err(IndexError::InvalidUtf8)
        } else if d[p + name_len] != 0 {
            Err(IndexError::MissingTerminator)
        } else {
            Ok(
                (
                    EntryView { sha1, name: decode_utf8(d.subrange(p, p + name_len)), fields },
                    p + name_len + 1 + entry_padding(name_len),
                ),
            )
        }
    }
}

/// Reads `count` entries from byte `pos` on, after those in `acc`.
pub open spec fn parse_entries(d: Seq<u8>, pos: int, count: int, acc: Seq<EntryView>) -> Result<
    (Seq<EntryView>, int),
    IndexError,
>
    decreases count,
{
    if count <= 0 {
        Ok((acc, pos))
    } else {
        match parse_entry(d, pos) {
            Err(e) => Err(e),
            Ok((e, q)) => parse_entries(d, q, count - 1, acc.push(e)),
        }
    }
}

/// The entries of the index file `d`, or why it cannot be read.
pub open spec fn parse_index(d: Seq<u8>) -> Result<Seq<EntryView>, IndexError> {
    if d.len() < 12 {
        Err(IndexError::TooSmall)
    } else if d.subrange(0, 4) != index_signature() {
        Err(IndexError::InvalidSignature)
    } else if be32_at(d, 4) != index_version() {
        Err(IndexError::UnsupportedVersion)
    } else {
        match parse_entries(d, 12, be32_at(d, 8) as int, Seq::empty()) {
            Err(e) => Err(e),
            Ok((es, _)) => {
                if d.len() < 20 {
                    Err(IndexError::MissingChecksum)
                } else if d.subrange(d.len() - 20, d.len() as int) != bytes_of_words(
                    sha1_digest(d.subrange(0, d.len() - 20)),
                ) {
                    Err(IndexError::ChecksumMismatch)
                } else {
                    Ok(es)
                }
            },
        }
    }
}

fn be32_exec(d: &[u8], i: usize) -> (r: u32)
    requires
        i + 4 <= d@.len(),
    ensures
        r == be32_at(d@, i as int),
{
    (d[i] as u32) * 0x1000000 + (d[i + 1] as u32) * 0x10000 + (d[i + 2] as u32) * 0x100 + d[i + 3] as u32
}

/// Reads the entry at byte `pos` of `data`.
fn read_entry(data: &[u8], pos: usize) -> (r: Result<(IndexFile, usize), IndexError>)
    requires
        pos <= data@.len(),
    ensures
        match parse_entry(data@, pos as int) {
            Ok((e, q)) => r matches Ok((f, p)) && f@ == e && p == q,
            Err(e) => r == Err::<(IndexFile, usize), IndexError>(e),
        },
        r matches Ok((_, p)) ==> p <= data@.len(),
{
    proof {
        reveal(parse_entry);
    }
    let n = data.len();
    if n - pos < 62 + 1 + 1 + 20 {
        return Err(IndexError::Truncated);
    }
    let ctime_sec = be32_exec(data, pos);
    let ctime_nsec = be32_exec(data, pos + 4);
    let mtime_sec = be32_exec(data, pos + 8);
    let mtime_nsec = be32_exec(data, pos + 12);
    let dev = be32_exec(data, pos + 16);
    let ino = be32_exec(data, pos + 20);
    let mode = be32_exec(data, pos + 24);
    let uid = be32_exec(data, pos + 28);
    let gid = be32_exec(data, pos + 32);
    let size = be32_exec(data, pos + 36);
    let mut sha1 = [0u8; 20];
    let mut k: usize = 0;
    while k < 20
        invariant
            k <= 20,
            n == data@.len(),
            pos + 84 <= data@.len(),
            sha1@.len() == 20,
            forall|j: int| 0 <= j < k ==> #[trigger] sha1@[j] == data@[pos + 40 + j],
        decreases 20 - k,
    {
        sha1[k] = data[pos + 40 + k];
        k += 1;
    }
    let flags = ((data[pos + 60] as u16) * 0x100 + data[pos + 61] as u16);
    let name_len = (flags & 0x0FFF) as usize;
    let p = pos + 62;
    if name_len + 1 > n - 20 - p {
        return Err(IndexError::NameTooLong);
    }
    let name_slice = &data[p..p + name_len];
    let name = match core::str::from_utf8(name_slice) {
        Ok(s) => s.to_owned(),
        Err(_) => {
            return Err(IndexError::InvalidUtf8);
        },
    };
    if data[p + name_len] != 0 {
        return Err(IndexError::MissingTerminator);
    }
    let total_len = 62 + name_len + 1;
    let padding = (8 - (total_len % 8)) % 8;
    let e = IndexFile {
        sha1,
        name,
        mode,
        size,
        ctime_sec,
        ctime_nsec,
        mtime_sec,
        mtime_nsec,
        dev,
        ino,
        uid,
        gid,
    };
    proof {
        assert(sha1@ =~= data@.subrange(pos + 40, pos + 60));
        let pe = parse_entry(data@, pos as int);
        assert(e@.fields =~= Seq::new(10, |k: int| be32_at(data@, pos + 4 * k)));
    }
    Ok((e, p + name_len + 1 + padding))
}

/// The entries of the index file `data`, in the order stored, after
/// checking its signature, version, entries and checksum.
pub fn read_index(data: &[u8]) -> (r: Result<Vec<IndexFile>, IndexError>)
    ensures
        match parse_index(data@) {
            Ok(es) => r matches Ok(v) && views(v@) == es,
            Err(e) => r matches Err(f) && f == e,
        },
{
    let n = data.len();
    if n < 12 {
        return Err(IndexError::TooSmall);
    }
    if data[0] != 0x44 || data[1] != 0x49 || data[2] != 0x52 || data[3] != 0x43 {
        proof {
            assert(data@.subrange(0, 4) != index_signature()) by {
                if data@.subrange(0, 4) == index_signature() {
                    assert(data@.subrange(0, 4)[0] == data@[0]);
                    assert(data@.subrange(0, 4)[1] == data@[1]);
                    assert(data@.subrange(0, 4)[2] == data@[2]);
                    assert(data@.subrange(0, 4)[3] == data@[3]);
                }
            }
        }
        return Err(IndexError::InvalidSignature);
    }
    proof {
        assert(data@.subrange(0, 4) =~= index_signature());
    }
    let version = be32_exec(data, 4);
    if version != 2 {
        return Err(IndexError::UnsupportedVersion);
    }
    let count = be32_exec(data, 8);
    let mut entries: Vec<IndexFile> = Vec::new();
    let mut pos: usize = 12;
    let mut i: u32 = 0;
    proof {
        assert(views(entries@) =~= Seq::<EntryView>::empty());
    }
    while i < count
        invariant
            n == data@.len(),
            n >= 12,
            data@.subrange(0, 4) == index_signature(),
            be32_at(data@, 4) == index_version(),
            count == be32_at(data@, 8),
            i <= count,
            pos <= n,
            parse_entries(data@, 12, count as int, Seq::empty()) == parse_entries(
                data@,
                pos as int,
                (count - i) as int,
                views(entries@),
            ),
        decreases count - i,
    {
        let ghost acc = views(entries@);
        match read_entry(data, pos) {
            Err(e) => {
                proof {
                    assert(parse_entries(data@, pos as int, (count - i) as int, acc) == Err::<
                        (Seq<EntryView>, int),
                        IndexError,
                    >(e));
                }
                return Err(e);
            },
            Ok((e, p)) => {
                proof {
                    assert(views(entries@.push(e)) =~= acc.push(e@));
                }
                entries.push(e);
                pos = p;
            },
        }
        i += 1;
    }
    proof {
        assert(parse_entries(data@, pos as int, 0, views(entries@)) == Ok::<
            (Seq<EntryView>, int),
            IndexError,
        >((views(entries@), pos as int)));
    }
    if n < 20 {
        return Err(IndexError::MissingChecksum);
    }
    let checksum_start = n - 20;
    let mut hasher = Sha1::new();
    hasher.encrypt(&data[0..checksum_start]);
    let expected = hasher.bytes();
    let mut k: usize = 0;
    while k < 20
        invariant
            n == data@.len(),
            n >= 20,
            data@.subrange(0, 4) == index_signature(),
            be32_at(data@, 4) == index_version(),
            parse_entries(data@, 12, be32_at(data@, 8) as int, Seq::empty()) == Ok::<
                (Seq<EntryView>, int),
                IndexError,
            >((views(entries@), pos as int)),
            checksum_start == n - 20,
            k <= 20,
            expected@ == bytes_of_words(sha1_digest(data@.subrange(0, n - 20))),
            forall|j: int| 0 <= j < k ==> data@[checksum_start + j] == #[trigger] expected@[j],
        decreases 20 - k,
    {
        if data[checksum_start + k] != expected[k] {
            proof {
                assert(data@.subrange(n - 20, n as int)[k as int] != expected@[k as int]);
            }
            return Err(IndexError::ChecksumMismatch);
        }
        k += 1;
    }
    proof {
        assert(data@.subrange(n - 20, n as int) =~= expected@);
    }
    Ok(entries)
}

/// An entry of a hash of 20 bytes and ten numeric fields, as every
/// `IndexFile` has.
pub open spec fn entry_wf(e: EntryView) -> bool {
    e.sha1.len() == 20 && e.fields.len() == 10
}

proof fn lemma_be32_at(d: Seq<u8>, i: int, v: u32)
    requires
        0 <= i,
        i + 4 <= d.len(),
        d.subrange(i, i + 4) == be_bytes(v),
    ensures
        be32_at(d, i) == v,
{
    assert(d[i] == be_bytes(v)[0]);
    assert(d[i + 1] == be_bytes(v)[1]);
    assert(d[i + 2] == be_bytes(v)[2]);
    assert(d[i + 3] == be_bytes(v)[3]);
    assert((v / 0x1000000) * 0x1000000 + ((v / 0x10000) % 256) * 0x10000 + ((v / 0x100) % 256)
        * 0x100 + v % 256 == v) by (nonlinear_arith);
}

proof fn lemma_fields_bytes(f: Seq<u32>, k: int)
    requires
        f.len() == 10,
        0 <= k < 10,
    ensures
        fields_bytes(f).len() == 40,
        fields_bytes(f).subrange(4 * k, 4 * k + 4) == be_bytes(f[k]),
{
    let b = fields_bytes(f);
    assert forall|j: int| 0 <= j < 4 implies #[trigger] b[4 * k + j] == be_bytes(f[k])[j] by {
        if k == 0 {
        } else if k == 1 {
        } else if k == 2 {
        } else if k == 3 {
        } else if k == 4 {
        } else if k == 5 {
        } else if k == 6 {
        } else if k == 7 {
        } else if k == 8 {
        } else {
        }
    }
    assert(b.subrange(4 * k, 4 * k + 4) =~= be_bytes(f[k]));
}

proof fn lemma_name_length(l: u16)
    requires
        l <= 4095,
    ensures
        l & 0x0FFFu16 == l,
{
    assert(l <= 4095 ==> l & 0x0FFFu16 == l) by (bit_vector);
}

proof fn lemma_entry_layout(e: EntryView)
    requires
        entry_wf(e),
        entry_storable(e),
    ensures
        ({
            let eb = entry_bytes(e);
            let l = encode_utf8(e.name).len() as int;
            &&& eb.len() == 63 + l + entry_padding(l)
            &&& eb.len() >= 64
            &&& eb.subrange(0, 40) == fields_bytes(e.fields)
            &&& eb.subrange(40, 60) == e.sha1
            &&& eb[60] == (l / 256) as u8
            &&& eb[61] == (l % 256) as u8
            &&& eb.subrange(62, 62 + l) == encode_utf8(e.name)
            &&& eb[62 + l] == 0
        }),
{
    let name = encode_utf8(e.name);
    let l = name.len() as int;
    let eb = entry_bytes(e);
    lemma_fields_bytes(e.fields, 0);
    let tail = Seq::new((1 + entry_padding(l)) as nat, |i: int| 0u8);
    let head = fields_bytes(e.fields) + e.sha1 + seq![(l / 256) as u8, (l % 256) as u8];
    assert(eb =~= head + name + tail);
    assert(eb.subrange(0, 40) =~= fields_bytes(e.fields));
    assert(eb.subrange(40, 60) =~= e.sha1);
    assert(eb.subrange(62, 62 + l) =~= name);
    assert(eb[62 + l] == tail[0]);
}

/// The fields of an entry read back from their bytes.
proof fn lemma_read_fields(d: Seq<u8>, pos: int, f: Seq<u32>)
    requires
        f.len() == 10,
        0 <= pos,
        pos + 40 <= d.len(),
        d.subrange(pos, pos + 40) == fields_bytes(f),
    ensures
        Seq::new(10, |k: int| be32_at(d, pos + 4 * k)) == f,
{
    assert forall|k: int| 0 <= k < 10 implies #[trigger] be32_at(d, pos + 4 * k) == f[k] by {
        lemma_fields_bytes(f, k);
        assert(d.subrange(pos + 4 * k, pos + 4 * k + 4) =~= fields_bytes(f).subrange(
            4 * k,
            4 * k + 4,
        ));
        lemma_be32_at(d, pos + 4 * k, f[k]);
    }
    assert(Seq::new(10, |k: int| be32_at(d, pos + 4 * k)) =~= f);
}

#[verifier::rlimit(30)]
proof fn lemma_parse_entry_at(d: Seq<u8>, pos: int, e: EntryView)
    requires
        entry_wf(e),
        entry_storable(e),
        0 <= pos,
        pos + entry_bytes(e).len() + 20 <= d.len(),
        d.subrange(pos, pos + entry_bytes(e).len()) == entry_bytes(e),
    ensures
        parse_entry(d, pos) == Ok::<(EntryView, int), IndexError>(
            (e, pos + entry_bytes(e).len()),
        ),
{
    reveal(parse_entry);
    let name = encode_utf8(e.name);
    let l = name.len() as int;
    let eb = entry_bytes(e);
    lemma_entry_layout(e);
    assert(d.subrange(pos, pos + 40) =~= eb.subrange(0, 40));
    lemma_read_fields(d, pos, e.fields);
    assert(d.subrange(pos + 40, pos + 60) =~= eb.subrange(40, 60));
    assert(d[pos + 60] == eb[60]);
    assert(d[pos + 61] == eb[61]);
    assert(be16_at(d, pos + 60) == l as u16);
    lemma_name_length(l as u16);
    let p = pos + 62;
    assert(d.subrange(p, p + l) =~= eb.subrange(62, 62 + l));
    vstd::utf8::encode_utf8_valid_utf8(e.name);
    vstd::utf8::encode_utf8_decode_utf8(e.name);
    assert(d[p + l] == eb[62 + l]);
}

proof fn lemma_parse_entries_step(d: Seq<u8>, pos: int, k: nat, acc: Seq<EntryView>)
    ensures
        parse_entries(d, pos, k + 1int, acc) == match parse_entries(d, pos, k as int, acc) {
            Err(e) => Err(e),
            Ok((a, q)) => match parse_entry(d, q) {
                Err(e) => Err(e),
                Ok((x, q2)) => Ok((a.push(x), q2)),
            },
        },
    decreases k,
{
    if k == 0 {
        reveal_with_fuel(parse_entries, 2);
    } else {
        match parse_entry(d, pos) {
            Err(e) => {},
            Ok((x, q)) => {
                lemma_parse_entries_step(d, q, (k - 1) as nat, acc.push(x));
            },
        }
    }
}

#[verifier::rlimit(40)]
proof fn lemma_parse_entries_bytes(d: Seq<u8>, start: int, es: Seq<EntryView>, acc: Seq<EntryView>)
    requires
        forall|i: int| 0 <= i < es.len() ==> entry_wf(#[trigger] es[i]) && entry_storable(es[i]),
        0 <= start,
        start + entries_bytes(es).len() + 20 <= d.len(),
        d.subrange(start, start + entries_bytes(es).len()) == entries_bytes(es),
    ensures
        parse_entries(d, start, es.len() as int, acc) == Ok::<(Seq<EntryView>, int), IndexError>(
            (acc + es, start + entries_bytes(es).len()),
        ),
    decreases es.len(),
{
    if es.len() == 0 {
        assert(acc + es =~= acc);
    } else {
        let first = es.drop_last();
        let x = es.last();
        let m = entries_bytes(first).len() as int;
        let eb = entry_bytes(x);
        assert(entry_wf(es[es.len() - 1]));
        assert(entries_bytes(es) == entries_bytes(first) + eb);
        assert(d.subrange(start, start + m) =~= entries_bytes(es).subrange(0, m));
        assert(entries_bytes(es).subrange(0, m) =~= entries_bytes(first));
        lemma_parse_entries_bytes(d, start, first, acc);
        lemma_parse_entries_step(d, start, (es.len() - 1) as nat, acc);
        assert(d.subrange(start + m, start + m + eb.len()) =~= entries_bytes(es).subrange(
            m,
            m + eb.len(),
        ));
        assert(entries_bytes(es).subrange(m, m + eb.len()) =~= eb);
        lemma_parse_entry_at(d, start + m, x);
        assert((acc + first).push(x) =~= acc + es);
    }
}

proof fn lemma_parse_index_of(d: Seq<u8>, es: Seq<EntryView>, end: int)
    requires
        d.len() >= 20,
        d.subrange(0, 4) == index_signature(),
        be32_at(d, 4) == index_version(),
        parse_entries(d, 12, be32_at(d, 8) as int, Seq::empty()) == Ok::<
            (Seq<EntryView>, int),
            IndexError,
        >((es, end)),
        d.subrange(d.len() - 20, d.len() as int) == bytes_of_words(
            sha1_digest(d.subrange(0, d.len() - 20)),
        ),
    ensures
        parse_index(d) == Ok::<Seq<EntryView>, IndexError>(es),
{
}

/// Reading back the index file of `es` gives `es`: the law of
/// `write_index` and `read_index`, for entries whose names fit the format
/// and fewer than 2^32 of them.
#[verifier::spinoff_prover]
#[verifier::rlimit(50)]
pub proof fn lemma_index_roundtrip(es: Seq<EntryView>)
    requires
        es.len() < 0x1_0000_0000,
        forall|i: int| 0 <= i < es.len() ==> entry_wf(#[trigger] es[i]) && entry_storable(es[i]),
    ensures
        parse_index(index_bytes(es)) == Ok::<Seq<EntryView>, IndexError>(es),
{
    let content = index_content(es);
    let hash = bytes_of_words(sha1_digest(content));
    let d = index_bytes(es);
    let n = es.len() as u32;
    let m = entries_bytes(es).len() as int;
    assert(d.len() == 12 + m + 20);
    assert(d.subrange(0, 4) == index_signature()) by {
        assert(d.subrange(0, 4) =~= index_signature());
    }
    assert(be32_at(d, 4) == index_version()) by {
        assert(d.subrange(4, 8) =~= be_bytes(index_version()));
        lemma_be32_at(d, 4, index_version());
    }
    assert(be32_at(d, 8) == n) by {
        assert(d.subrange(8, 12) =~= be_bytes(n));
        lemma_be32_at(d, 8, n);
    }
    assert(parse_entries(d, 12, n as int, Seq::empty()) == Ok::<(Seq<EntryView>, int), IndexError>(
        (es, 12 + m),
    )) by {
        assert(d.subrange(12, 12 + m) =~= entries_bytes(es));
        lemma_parse_entries_bytes(d, 12, es, Seq::empty());
        assert(Seq::<EntryView>::empty() + es =~= es);
    }
    assert(d.subrange(d.len() - 20, d.len() as int) == bytes_of_words(
        sha1_digest(d.subrange(0, d.len() - 20)),
    )) by {
        assert(d.subrange(d.len() - 20, d.len() as int) =~= hash);
        assert(d.subrange(0, d.len() - 20) =~= content);
    }
    lemma_parse_index_of(d, es, 12 + m);
}

/// What `read_index` gives back of the bytes that `write_index` wrote: the
/// entries given to it, sorted by name.
pub proof fn lemma_write_then_read(entries: Seq<IndexFile>)
    requires
        entries.len() < 0x1_0000_0000,
        forall|i: int| 0 <= i < entries.len() ==> entry_storable(#[trigger] entries[i]@),
    ensures
        parse_index(index_bytes(sort_entries(views(entries)))) == Ok::<
            Seq<EntryView>,
            IndexError,
        >(sort_entries(views(entries))),
{
    let vs = views(entries);
    lemma_sort_entries_props(vs);
    let s = sort_entries(vs);
    assert forall|i: int| 0 <= i < s.len() implies entry_wf(#[trigger] s[i]) && entry_storable(
        s[i],
    ) by {
        let k = choose|k: int| 0 <= k < vs.len() && vs[k] == s[i];
        assert(vs[k] == entries[k]@);
    }
    lemma_index_roundtrip(s);
}

} // verus!
