//! Tree objects: the directories of the index, each as the sorted list of
//! its files and subdirectories with their modes and hashes.
use vstd::prelude::*;
use vstd::utf8::encode_utf8;

use crate::args::{find_char, lemma_find_char_some};
use crate::indx::{
    bytes_le, bytes_le_exec, lemma_bytes_le_total, lemma_bytes_le_transitive, name_bytes, views,
    EntryView, IndexFile,
};
use crate::objects::{store_object, stored, StoredObject};
use crate::sha1::{bytes_of_words, sha1_digest, Sha1};
use crate::text::{decimal, octal, push_decimal, push_octal, push_str_bytes, str_to_chars};

verus! {

/// One line of a tree: a mode, a name and the hash of what it names.
pub struct TreeItemView {
    pub mode: u32,
    pub name: Seq<char>,
    pub hash: Seq<u8>,
}

/// The mode of a subdirectory.
pub open spec fn dir_mode() -> u32 {
    0o40000
}

/// `s` starts with `p`.
pub open spec fn starts_with(s: Seq<char>, p: Seq<char>) -> bool {
    p.len() <= s.len() && s.subrange(0, p.len() as int) == p
}

/// The prefix that the names under the directory `prefix` start with.
pub open spec fn with_slash(prefix: Seq<char>) -> Seq<char> {
    if prefix.len() == 0 {
        Seq::empty()
    } else {
        prefix.push('/')
    }
}

/// The path of the subdirectory `dir` of the directory `prefix`.
pub open spec fn sub_prefix(prefix: Seq<char>, dir: Seq<char>) -> Seq<char> {
    if prefix.len() == 0 {
        dir
    } else {
        prefix + seq!['/'] + dir
    }
}

/// The last position before `i` of the character `c` in `s`.
pub open spec fn find_char_back(s: Seq<char>, c: char, i: int) -> Option<int>
    decreases i,
{
    if i <= 0 || i > s.len() {
        None
    } else if s[i - 1] == c {
        Some(i - 1)
    } else {
        find_char_back(s, c, i - 1)
    }
}

/// What follows the last `/` of `s`, or all of `s`.
pub open spec fn last_component(s: Seq<char>) -> Seq<char> {
    match find_char_back(s, '/', s.len() as int) {
        Some(k) => s.subrange(k + 1, s.len() as int),
        None => s,
    }
}

proof fn lemma_find_char_back_none(s: Seq<char>, c: char, i: int, lo: int)
    requires
        0 <= lo <= i <= s.len(),
        forall|k: int| lo <= k < i ==> s[k] != c,
    ensures
        find_char_back(s, c, i) == find_char_back(s, c, lo),
    decreases i,
{
    if i > lo {
        lemma_find_char_back_none(s, c, i - 1, lo);
    }
}

proof fn lemma_find_char_back_absent(s: Seq<char>, c: char, i: int)
    requires
        0 <= i <= s.len(),
        find_char_back(s, c, i) is None,
    ensures
        forall|k: int| 0 <= k < i ==> s[k] != c,
    decreases i,
{
    if i > 0 {
        lemma_find_char_back_absent(s, c, i - 1);
    }
}

proof fn lemma_find_char_back_some(s: Seq<char>, c: char, i: int, k: int)
    requires
        find_char_back(s, c, i) == Some(k),
    ensures
        0 <= k < i <= s.len(),
        s[k] == c,
        forall|j: int| k < j < i ==> s[j] != c,
    decreases i,
{
    if 0 < i <= s.len() && s[i - 1] != c {
        lemma_find_char_back_some(s, c, i - 1, k);
    }
}

/// The name of a file in its directory is what follows the last `/` of its
/// path: it holds no `/`, it ends the path, and the path either is that
/// name or has a `/` right before it.
pub proof fn lemma_last_component(s: Seq<char>)
    ensures
        !last_component(s).contains('/'),
        last_component(s).len() <= s.len(),
        s.subrange(s.len() - last_component(s).len(), s.len() as int) == last_component(s),
        last_component(s).len() < s.len() ==> s[s.len() - last_component(s).len() - 1] == '/',
{
    let found = find_char_back(s, '/', s.len() as int);
    match found {
        Some(k) => {
            lemma_find_char_back_some(s, '/', s.len() as int, k);
            let r = s.subrange(k + 1, s.len() as int);
            assert forall|j: int| 0 <= j < r.len() implies r[j] != '/' by {
                assert(r[j] == s[k + 1 + j]);
            }
            assert(s.subrange(s.len() - r.len(), s.len() as int) =~= r);
        },
        None => {
            lemma_find_char_back_absent(s, '/', s.len() as int);
            assert(s.subrange(0, s.len() as int) =~= s);
        },
    }
}

/// The name of `pws + rel`, for a directory prefix `pws` (empty or ending
/// in `/`) and a name `rel` without `/`, is `rel`.
pub proof fn lemma_last_component_under(pws: Seq<char>, rel: Seq<char>)
    requires
        pws.len() == 0 || pws.last() == '/',
        !rel.contains('/'),
    ensures
        last_component(pws + rel) == rel,
{
    let s = pws + rel;
    assert forall|k: int| pws.len() <= k < s.len() implies s[k] != '/' by {
        assert(s[k] == rel[k - pws.len()]);
    }
    lemma_find_char_back_none(s, '/', s.len() as int, pws.len() as int);
    if pws.len() == 0 {
        assert(s =~= rel);
    } else {
        assert(s[pws.len() - 1] == '/');
        assert(s.subrange(pws.len() as int, s.len() as int) =~= rel);
    }
}

/// The directories right under `pws` (distinct, in the order first met)
/// and the files right under it (in the order given), of the entries `es`.
pub open spec fn scan(es: Seq<EntryView>, pws: Seq<char>) -> (Seq<Seq<char>>, Seq<EntryView>)
    decreases es.len(),
{
    if es.len() == 0 {
        (Seq::empty(), Seq::empty())
    } else {
        let (dirs, files) = scan(es.drop_last(), pws);
        let e = es.last();
        if !starts_with(e.name, pws) {
            (dirs, files)
        } else {
            let rel = e.name.subrange(pws.len() as int, e.name.len() as int);
            if rel.len() == 0 {
                (dirs, files)
            } else {
                match find_char(rel, '/', 0) {
                    Some(k) => {
                        let dir = rel.subrange(0, k);
                        if dirs.contains(dir) {
                            (dirs, files)
                        } else {
                            (dirs.push(dir), files)
                        }
                    },
                    None => (dirs, files.push(e)),
                }
            }
        }
    }
}

proof fn lemma_find_char_absent(a: Seq<char>, c: char, i: int)
    requires
        0 <= i,
        find_char(a, c, i) is None,
    ensures
        forall|k: int| i <= k < a.len() ==> a[k] != c,
    decreases a.len() - i,
{
    if i < a.len() {
        lemma_find_char_absent(a, c, i + 1);
    }
}

proof fn lemma_scan_files(es: Seq<EntryView>, pws: Seq<char>)
    ensures
        forall|i: int|
            0 <= i < scan(es, pws).1.len() ==> {
                let f = #[trigger] scan(es, pws).1[i];
                &&& starts_with(f.name, pws)
                &&& f.name.len() > pws.len()
                &&& find_char(f.name.subrange(pws.len() as int, f.name.len() as int), '/', 0) is None
            },
    decreases es.len(),
{
    if es.len() > 0 {
        lemma_scan_files(es.drop_last(), pws);
    }
}

/// Each file right under a directory is listed in that directory's tree
/// by its path with the directory's path taken off: a name of at least one
/// character and without `/`. For the entry `a/b/c.txt`, the tree of
/// `a/b` lists `c.txt`.
pub proof fn lemma_file_item_names(es: Seq<EntryView>, prefix: Seq<char>)
    ensures
        forall|i: int|
            0 <= i < scan(es, with_slash(prefix)).1.len() ==> {
                let name = #[trigger] file_items(scan(es, with_slash(prefix)).1)[i].name;
                &&& with_slash(prefix) + name == scan(es, with_slash(prefix)).1[i].name
                &&& name.len() > 0
                &&& !name.contains('/')
            },
{
    let pws = with_slash(prefix);
    let files = scan(es, pws).1;
    lemma_scan_files(es, pws);
    assert forall|i: int| 0 <= i < files.len() implies {
        let name = #[trigger] file_items(files)[i].name;
        &&& pws + name == files[i].name
        &&& name.len() > 0
        &&& !name.contains('/')
    } by {
        let f = files[i];
        let rel = f.name.subrange(pws.len() as int, f.name.len() as int);
        lemma_find_char_absent(rel, '/', 0);
        assert(f.name =~= pws + rel) by {
            assert(f.name.subrange(0, pws.len() as int) == pws);
        }
        lemma_last_component_under(pws, rel);
        assert(file_items(files)[i].name == last_component(f.name));
    }
}

/// The length of the longest name.
pub open spec fn max_name_len(es: Seq<EntryView>) -> int
    decreases es.len(),
{
    if es.len() == 0 {
        0
    } else {
        let m = max_name_len(es.drop_last());
        if es.last().name.len() > m {
            es.last().name.len() as int
        } else {
            m
        }
    }
}

/// The items of the files right under a directory.
pub open spec fn file_items(files: Seq<EntryView>) -> Seq<TreeItemView> {
    files.map_values(
        |e: EntryView| TreeItemView { mode: e.fields[6], name: last_component(e.name), hash: e.sha1 },
    )
}

/// The hash of the tree of the subdirectory `dir` of `prefix`.
pub open spec fn subtree_hash(es: Seq<EntryView>, prefix: Seq<char>, dir: Seq<char>) -> Seq<u8>
    decreases max_name_len(es) - prefix.len(), 0int, 0int,
{
    let sub = sub_prefix(prefix, dir);
    if prefix.len() < sub.len() <= max_name_len(es) {
        bytes_of_words(sha1_digest(tree_raw(es, sub)))
    } else {
        Seq::empty()
    }
}

/// The items of the first `k` subdirectories `dirs` of `prefix`.
pub open spec fn dir_items(es: Seq<EntryView>, prefix: Seq<char>, dirs: Seq<Seq<char>>, k: int) -> Seq<
    TreeItemView,
>
    decreases max_name_len(es) - prefix.len(), 1int, k,
{
    if k <= 0 || k > dirs.len() {
        Seq::empty()
    } else {
        dir_items(es, prefix, dirs, k - 1).push(
            TreeItemView {
                mode: dir_mode(),
                name: dirs[k - 1],
                hash: subtree_hash(es, prefix, dirs[k - 1]),
            },
        )
    }
}

/// The bytes of the tree object of the directory `prefix`: `tree`, the
/// length of its data in decimal, a zero byte, and the data.
pub open spec fn tree_raw(es: Seq<EntryView>, prefix: Seq<char>) -> Seq<u8>
    decreases max_name_len(es) - prefix.len(), 2int, 0int,
{
    let (dirs, files) = scan(es, with_slash(prefix));
    let data = items_bytes(
        sort_items(dir_items(es, prefix, dirs, dirs.len() as int) + file_items(files)),
    );
    encode_utf8("tree "@) + decimal(data.len()) + seq![0u8] + data
}

/// The objects that writing the tree of the subdirectory `dir` of `prefix`
/// stores, in order.
pub open spec fn subtree_objects(es: Seq<EntryView>, prefix: Seq<char>, dir: Seq<char>) -> Seq<
    Seq<u8>,
>
    decreases max_name_len(es) - prefix.len(), 0int, 0int,
{
    let sub = sub_prefix(prefix, dir);
    if prefix.len() < sub.len() <= max_name_len(es) {
        tree_objects(es, sub)
    } else {
        Seq::empty()
    }
}

/// The objects stored for the first `k` subdirectories `dirs` of `prefix`.
pub open spec fn dir_objects(
    es: Seq<EntryView>,
    prefix: Seq<char>,
    dirs: Seq<Seq<char>>,
    k: int,
) -> Seq<Seq<u8>>
    decreases max_name_len(es) - prefix.len(), 1int, k,
{
    if k <= 0 || k > dirs.len() {
        Seq::empty()
    } else {
        dir_objects(es, prefix, dirs, k - 1) + subtree_objects(es, prefix, dirs[k - 1])
    }
}

/// The objects that writing the tree of `prefix` stores, in order: those of
/// its subdirectories, in the order first met, then its own.
pub open spec fn tree_objects(es: Seq<EntryView>, prefix: Seq<char>) -> Seq<Seq<u8>>
    decreases max_name_len(es) - prefix.len(), 2int, 0int,
{
    let (dirs, files) = scan(es, with_slash(prefix));
    dir_objects(es, prefix, dirs, dirs.len() as int).push(tree_raw(es, prefix))
}

/// The bytes of one item: its mode in octal, a space, its name, a zero
/// byte, and its hash.
pub open spec fn item_bytes(t: TreeItemView) -> Seq<u8> {
    octal(t.mode as nat) + seq![0x20u8] + encode_utf8(t.name) + seq![0u8] + t.hash
}

/// The bytes of a list of items.
pub open spec fn items_bytes(s: Seq<TreeItemView>) -> Seq<u8>
    decreases s.len(),
{
    if s.len() == 0 {
        Seq::empty()
    } else {
        items_bytes(s.drop_last()) + item_bytes(s.last())
    }
}

/// `x` inserted into `sorted` after every item whose name is no greater.
pub open spec fn insert_item(sorted: Seq<TreeItemView>, x: TreeItemView) -> Seq<TreeItemView>
    decreases sorted.len(),
{
    if sorted.len() == 0 {
        seq![x]
    } else if bytes_le(encode_utf8(sorted.last().name), encode_utf8(x.name)) {
        sorted.push(x)
    } else {
        insert_item(sorted.drop_last(), x).push(sorted.last())
    }
}

/// The items sorted by name, stably.
pub open spec fn sort_items(s: Seq<TreeItemView>) -> Seq<TreeItemView>
    decreases s.len(),
{
    if s.len() == 0 {
        Seq::empty()
    } else {
        insert_item(sort_items(s.drop_last()), s.last())
    }
}

proof fn lemma_max_name_len(es: Seq<EntryView>, i: int)
    requires
        0 <= i < es.len(),
    ensures
        es[i].name.len() <= max_name_len(es),
    decreases es.len(),
{
    if i < es.len() - 1 {
        lemma_max_name_len(es.drop_last(), i);
        assert(es.drop_last()[i] == es[i]);
    }
}

/// Every directory met right under `pws` is the start of some entry's name
/// after `pws`, followed there by a `/`.
proof fn lemma_scan_dirs(es: Seq<EntryView>, pws: Seq<char>)
    ensures
        forall|j: int|
            0 <= j < scan(es, pws).0.len() ==> exists|i: int|
                0 <= i < es.len() && starts_with(es[i].name, pws) && pws.len()
                    + #[trigger] scan(es, pws).0[j].len() < es[i].name.len() && es[i].name[(pws.len()
                    + scan(es, pws).0[j].len()) as int] == '/',
    decreases es.len(),
{
    if es.len() > 0 {
        let first = es.drop_last();
        lemma_scan_dirs(first, pws);
        let (dirs, files) = scan(first, pws);
        let e = es.last();
        let d = scan(es, pws).0;
        assert forall|j: int| 0 <= j < d.len() implies exists|i: int|
            0 <= i < es.len() && starts_with(es[i].name, pws) && pws.len()
                + #[trigger] d[j].len() < es[i].name.len() && es[i].name[(pws.len() + d[j].len()) as int]
                == '/' by {
            if j < dirs.len() {
                assert(d[j] == dirs[j]);
                let i = choose|i: int|
                    0 <= i < first.len() && starts_with(first[i].name, pws) && pws.len()
                        + #[trigger] dirs[j].len() < first[i].name.len() && first[i].name[(pws.len()
                        + dirs[j].len()) as int] == '/';
                assert(es[i] == first[i]);
            } else {
                let rel = e.name.subrange(pws.len() as int, e.name.len() as int);
                let k = find_char(rel, '/', 0)->0;
                lemma_find_char_some(rel, '/', 0, k);
                assert(d[j] == rel.subrange(0, k));
                assert(es[es.len() - 1] == e);
                assert(e.name[pws.len() + k] == rel[k]);
            }
        }
    }
}

/// A line of a tree.
struct TreeItem {
    mode: u32,
    name: String,
    hash: [u8; 20],
}

impl View for TreeItem {
    type V = TreeItemView;

    closed spec fn view(&self) -> TreeItemView {
        TreeItemView { mode: self.mode, name: self.name@, hash: self.hash@ }
    }
}

spec fn item_views(s: Seq<TreeItem>) -> Seq<TreeItemView> {
    s.map_values(|t: TreeItem| t@)
}

spec fn char_views(s: Seq<Vec<char>>) -> Seq<Seq<char>> {
    s.map_values(|d: Vec<char>| d@)
}

spec fn entries_at(es: Seq<EntryView>, idx: Seq<usize>) -> Seq<EntryView> {
    idx.map_values(|j: usize| es[j as int])
}

fn chars_eq(a: &Vec<char>, b: &Vec<char>) -> (r: bool)
    ensures
        r == (a@ == b@),
{
    if a.len() != b.len() {
        return false;
    }
    let n = a.len();
    let mut k: usize = 0;
    while k < n
        invariant
            k <= n,
            n == a@.len(),
            n == b@.len(),
            forall|j: int| 0 <= j < k ==> a@[j] == b@[j],
        decreases n - k,
    {
        if a[k] != b[k] {
            return false;
        }
        k += 1;
    }
    assert(a@ =~= b@);
    true
}

fn chars_start_with(s: &Vec<char>, p: &Vec<char>) -> (r: bool)
    ensures
        r == starts_with(s@, p@),
{
    if p.len() > s.len() {
        return false;
    }
    let n = p.len();
    let mut k: usize = 0;
    while k < n
        invariant
            k <= n,
            n == p@.len(),
            n <= s@.len(),
            forall|j: int| 0 <= j < k ==> s@[j] == p@[j],
        decreases n - k,
    {
        if s[k] != p[k] {
            assert(s@.subrange(0, n as int)[k as int] != p@[k as int]);
            return false;
        }
        k += 1;
    }
    assert(s@.subrange(0, n as int) =~= p@);
    true
}

fn contains_chars(dirs: &Vec<Vec<char>>, d: &Vec<char>) -> (r: bool)
    ensures
        r == char_views(dirs@).contains(d@),
{
    let n = dirs.len();
    let mut k: usize = 0;
    while k < n
        invariant
            k <= n,
            n == dirs@.len(),
            forall|j: int| 0 <= j < k ==> char_views(dirs@)[j] != d@,
        decreases n - k,
    {
        if chars_eq(&dirs[k], d) {
            assert(char_views(dirs@)[k as int] == d@);
            return true;
        }
        k += 1;
    }
    false
}

/// The directories and files right under `pws`, the files by position.
fn scan_exec(entries: &Vec<IndexFile>, pws: &Vec<char>) -> (r: (Vec<Vec<char>>, Vec<usize>))
    ensures
        char_views(r.0@) == scan(views(entries@), pws@).0,
        entries_at(views(entries@), r.1@) == scan(views(entries@), pws@).1,
        forall|j: int| 0 <= j < r.1@.len() ==> #[trigger] r.1@[j] < entries@.len(),
{
    let ghost es = views(entries@);
    let mut dirs: Vec<Vec<char>> = Vec::new();
    let mut files: Vec<usize> = Vec::new();
    let n = entries.len();
    let mut i: usize = 0;
    proof {
        assert(es.take(0) =~= Seq::<EntryView>::empty());
        assert(char_views(dirs@) =~= Seq::<Seq<char>>::empty());
        assert(entries_at(es, files@) =~= Seq::<EntryView>::empty());
    }
    while i < n
        invariant
            n == entries@.len(),
            es == views(entries@),
            i <= n,
            char_views(dirs@) == scan(es.take(i as int), pws@).0,
            entries_at(es, files@) == scan(es.take(i as int), pws@).1,
            forall|j: int| 0 <= j < files@.len() ==> #[trigger] files@[j] < n,
        decreases n - i,
    {
        proof {
            assert(es.take(i + 1).drop_last() =~= es.take(i as int));
            assert(es.take(i + 1).last() == es[i as int]);
            assert(es[i as int] == entries@[i as int]@);
        }
        let name = str_to_chars(entries[i].name.as_str());
        if chars_start_with(&name, pws) {
            let m = name.len();
            let p = pws.len();
            if m > p {
                let ghost rel = name@.subrange(p as int, m as int);
                let mut k: usize = p;
                while k < m && name[k] != '/'
                    invariant
                        p <= k <= m,
                        m == name@.len(),
                        rel == name@.subrange(p as int, m as int),
                        find_char(rel, '/', 0) == find_char(rel, '/', k - p),
                    decreases m - k,
                {
                    k += 1;
                }
                if k < m {
                    let mut dir: Vec<char> = Vec::new();
                    let mut q = p;
                    while q < k
                        invariant
                            p <= q <= k,
                            k < m,
                            m == name@.len(),
                            dir@ == name@.subrange(p as int, q as int),
                        decreases k - q,
                    {
                        dir.push(name[q]);
                        proof {
                            assert(dir@ =~= name@.subrange(p as int, q + 1));
                        }
                        q += 1;
                    }
                    proof {
                        assert(rel[k - p] == '/');
                        assert(dir@ =~= rel.subrange(0, k - p));
                    }
                    if !contains_chars(&dirs, &dir) {
                        let ghost d0 = char_views(dirs@);
                        let ghost dv = dir@;
                        dirs.push(dir);
                        proof {
                            assert(char_views(dirs@) =~= d0.push(dv));
                        }
                    }
                } else {
                    let ghost f0 = entries_at(es, files@);
                    files.push(i);
                    proof {
                        assert(entries_at(es, files@) =~= f0.push(es[i as int]));
                    }
                }
            }
        }
        i += 1;
    }
    proof {
        assert(es.take(n as int) =~= es);
    }
    (dirs, files)
}

fn last_component_exec(cs: &Vec<char>) -> (r: String)
    ensures
        r@ == last_component(cs@),
{
    let n = cs.len();
    let mut k = n;
    while k > 0 && cs[k - 1] != '/'
        invariant
            k <= n,
            n == cs@.len(),
            find_char_back(cs@, '/', n as int) == find_char_back(cs@, '/', k as int),
        decreases k,
    {
        k -= 1;
    }
    let mut r = String::new();
    let mut q = k;
    while q < n
        invariant
            k <= q <= n,
            n == cs@.len(),
            r@ == cs@.subrange(k as int, q as int),
        decreases n - q,
    {
        r.push(cs[q]);
        proof {
            assert(r@ =~= cs@.subrange(k as int, q + 1));
        }
        q += 1;
    }
    proof {
        if k == 0 {
            assert(cs@.subrange(0, n as int) =~= cs@);
        }
    }
    r
}

proof fn lemma_item_views_insert(s: Seq<TreeItem>, j: int, e: TreeItem)
    requires
        0 <= j <= s.len(),
    ensures
        item_views(s.insert(j, e)) == item_views(s).insert(j, e@),
{
    assert(item_views(s.insert(j, e)) =~= item_views(s).insert(j, e@));
}

/// Sorts the items by name, keeping items of equal names in order.
fn sort_items_exec(items: Vec<TreeItem>) -> (r: Vec<TreeItem>)
    ensures
        item_views(r@) == sort_items(item_views(items@)),
{
    let ghost orig = items@;
    let mut items = items;
    let mut sorted: Vec<TreeItem> = Vec::new();
    let n = items.len();
    let mut i: usize = 0;
    while i < n
        invariant
            n == orig.len(),
            i <= n,
            items@ == orig.skip(i as int),
            item_views(sorted@) == sort_items(item_views(orig.take(i as int))),
        decreases n - i,
    {
        let e = items.remove(0);
        let ghost s = item_views(sorted@);
        let ghost x = e@;
        let mut j = sorted.len();
        proof {
            assert(s.take(j as int) =~= s);
            assert(s.skip(j as int) =~= Seq::<TreeItemView>::empty());
            assert(insert_item(s, x) =~= insert_item(s.take(j as int), x) + s.skip(j as int));
        }
        while j > 0 && !bytes_le_exec(name_bytes(&sorted[j - 1].name), name_bytes(&e.name))
            invariant
                j <= sorted@.len(),
                s == item_views(sorted@),
                x == e@,
                insert_item(s, x) == insert_item(s.take(j as int), x) + s.skip(j as int),
            decreases j,
        {
            proof {
                assert(s.take(j as int).last() == s[j - 1]);
                assert(s.take(j as int).drop_last() =~= s.take(j - 1));
                assert(insert_item(s.take(j - 1), x).push(s[j - 1]) + s.skip(j as int) =~= insert_item(
                    s.take(j - 1),
                    x,
                ) + s.skip(j - 1));
            }
            j -= 1;
        }
        proof {
            if j == 0 {
                assert(s.take(0) =~= Seq::<TreeItemView>::empty());
            }
            assert(insert_item(s, x) =~= s.insert(j as int, x));
            lemma_item_views_insert(sorted@, j as int, e);
            assert(orig.take(i + 1).drop_last() =~= orig.take(i as int));
            assert(item_views(orig.take(i + 1)).drop_last() =~= item_views(orig.take(i as int)));
            assert(orig.skip(i as int).drop_first() =~= orig.skip(i + 1));
        }
        sorted.insert(j, e);
        i += 1;
    }
    proof {
        assert(orig.take(n as int) =~= orig);
    }
    sorted
}

/// The bytes of the items, in order.
fn items_bytes_exec(items: &Vec<TreeItem>) -> (data: Vec<u8>)
    ensures
        data@ == items_bytes(item_views(items@)),
{
    let ghost iv = item_views(items@);
    let mut data: Vec<u8> = Vec::new();
    let n = items.len();
    let mut k: usize = 0;
    proof {
        assert(iv.take(0) =~= Seq::<TreeItemView>::empty());
    }
    while k < n
        invariant
            k <= n,
            n == items@.len(),
            iv == item_views(items@),
            data@ == items_bytes(iv.take(k as int)),
        decreases n - k,
    {
        let ghost d0 = data@;
        let t = &items[k];
        push_octal(&mut data, t.mode);
        data.push(0x20);
        push_str_bytes(&mut data, t.name.as_str());
        data.push(0);
        data.extend_from_slice(t.hash.as_slice());
        proof {
            assert(iv[k as int] == t@);
            assert(iv.take(k + 1).drop_last() =~= iv.take(k as int));
            assert(data@ =~= d0 + item_bytes(t@));
        }
        k += 1;
    }
    proof {
        assert(iv.take(n as int) =~= iv);
    }
    data
}

/// No name starts with `/`.
pub open spec fn no_leading_slash(es: Seq<EntryView>) -> bool {
    forall|i: int| 0 <= i < es.len() ==> !(#[trigger] es[i].name.len() > 0 && es[i].name[0] == '/')
}

/// `os` are the stored forms of the objects `raws`, one for one.
pub open spec fn objects_stored(os: Seq<StoredObject>, raws: Seq<Seq<u8>>) -> bool {
    &&& os.len() == raws.len()
    &&& forall|k: int| 0 <= k < os.len() ==> stored(#[trigger] os[k], raws[k])
}

proof fn lemma_objects_stored_concat(
    a: Seq<StoredObject>,
    b: Seq<StoredObject>,
    ra: Seq<Seq<u8>>,
    rb: Seq<Seq<u8>>,
)
    requires
        objects_stored(a, ra),
        objects_stored(b, rb),
    ensures
        objects_stored(a + b, ra + rb),
{
    assert forall|k: int| 0 <= k < (a + b).len() implies stored(#[trigger] (a + b)[k], (ra + rb)[k]) by {
        if k < a.len() {
            assert((a + b)[k] == a[k]);
            assert((ra + rb)[k] == ra[k]);
        } else {
            assert((a + b)[k] == b[k - a.len()]);
            assert((ra + rb)[k] == rb[k - a.len()]);
        }
    }
}

fn string_of_chars(cs: &Vec<char>) -> (s: String)
    ensures
        s@ == cs@,
{
    let mut s = String::new();
    let n = cs.len();
    let mut k: usize = 0;
    while k < n
        invariant
            k <= n,
            n == cs@.len(),
            s@ == cs@.subrange(0, k as int),
        decreases n - k,
    {
        s.push(cs[k]);
        proof {
            assert(s@ =~= cs@.subrange(0, k + 1));
        }
        k += 1;
    }
    assert(cs@.subrange(0, n as int) =~= cs@);
    s
}

/// `a`, then `sep` if `a` is not empty, then `b`.
fn join_chars(a: &Vec<char>, b: &Vec<char>) -> (r: Vec<char>)
    ensures
        r@ == (if a@.len() == 0 {
            b@
        } else {
            a@ + seq!['/'] + b@
        }),
{
    let mut r: Vec<char> = Vec::new();
    r.extend_from_slice(a.as_slice());
    if a.len() > 0 {
        r.push('/');
    }
    r.extend_from_slice(b.as_slice());
    proof {
        if a@.len() == 0 {
            assert(r@ =~= b@);
        } else {
            assert(r@ =~= a@ + seq!['/'] + b@);
        }
    }
    r
}

fn write_tree_rec(entries: &Vec<IndexFile>, prefix: &Vec<char>, out: &mut Vec<StoredObject>) -> (h:
    Sha1)
    requires
        prefix@.len() > 0 || no_leading_slash(views(entries@)),
    ensures
        h.state() == sha1_digest(tree_raw(views(entries@), prefix@)),
        final(out)@.len() >= old(out)@.len(),
        final(out)@.subrange(0, old(out)@.len() as int) == old(out)@,
        objects_stored(
            final(out)@.skip(old(out)@.len() as int),
            tree_objects(views(entries@), prefix@),
        ),
    decreases max_name_len(views(entries@)) - prefix@.len(),
{
    let ghost es = views(entries@);
    let ghost m = max_name_len(es);
    let empty: Vec<char> = Vec::new();
    let pws = if prefix.len() == 0 {
        empty
    } else {
        let mut v: Vec<char> = Vec::new();
        v.extend_from_slice(prefix.as_slice());
        v.push('/');
        v
    };
    assert(pws@ == with_slash(prefix@));
    let (dirs, files) = scan_exec(entries, &pws);
    let ghost dv = char_views(dirs@);
    let ghost fv = scan(es, pws@).1;
    proof {
        lemma_scan_dirs(es, pws@);
    }
    let ghost o0 = out@;
    let mut items: Vec<TreeItem> = Vec::new();
    let nd = dirs.len();
    let mut k: usize = 0;
    proof {
        assert(item_views(items@) =~= Seq::<TreeItemView>::empty());
        assert(out@.subrange(0, o0.len() as int) =~= o0);
        assert(out@.skip(o0.len() as int) =~= Seq::<StoredObject>::empty());
    }
    while k < nd
        invariant
            k <= nd,
            nd == dirs@.len(),
            es == views(entries@),
            m == max_name_len(es),
            pws@ == with_slash(prefix@),
            dv == char_views(dirs@),
            dv == scan(es, pws@).0,
            prefix@.len() > 0 || no_leading_slash(es),
            forall|j: int|
                0 <= j < scan(es, pws@).0.len() ==> exists|i: int|
                    0 <= i < es.len() && starts_with(es[i].name, pws@) && pws@.len()
                        + #[trigger] scan(es, pws@).0[j].len() < es[i].name.len() && es[i].name[(
                    pws@.len() + scan(es, pws@).0[j].len()) as int] == '/',
            item_views(items@) == dir_items(es, prefix@, dv, k as int),
            out@.len() >= o0.len(),
            out@.subrange(0, o0.len() as int) == o0,
            objects_stored(out@.skip(o0.len() as int), dir_objects(es, prefix@, dv, k as int)),
        decreases nd - k,
    {
        let sub = join_chars(prefix, &dirs[k]);
        proof {
            let d = dv[k as int];
            assert(dirs@[k as int]@ == d);
            let i = choose|i: int|
                0 <= i < es.len() && starts_with(es[i].name, pws@) && pws@.len()
                    + #[trigger] scan(es, pws@).0[k as int].len() < es[i].name.len() && es[i].name[(
                pws@.len() + scan(es, pws@).0[k as int].len()) as int] == '/';
            lemma_max_name_len(es, i);
            assert(sub@ == sub_prefix(prefix@, d));
            if prefix@.len() == 0 {
                assert(es[i].name.len() > 0);
                if d.len() == 0 {
                    assert(es[i].name[0] == '/');
                }
            }
            assert(prefix@.len() < sub@.len() <= m);
        }
        let ghost before = out@;
        let h = write_tree_rec(entries, &sub, out);
        proof {
            let d = dv[k as int];
            let new = out@.skip(before.len() as int);
            assert(out@.skip(o0.len() as int) =~= before.skip(o0.len() as int) + new);
            lemma_objects_stored_concat(
                before.skip(o0.len() as int),
                new,
                dir_objects(es, prefix@, dv, k as int),
                tree_objects(es, sub@),
            );
            assert(subtree_objects(es, prefix@, d) == tree_objects(es, sub@));
            assert(dir_objects(es, prefix@, dv, k + 1) == dir_objects(es, prefix@, dv, k as int)
                + subtree_objects(es, prefix@, d));
            assert(out@.subrange(0, o0.len() as int) =~= before.subrange(0, o0.len() as int));
        }
        let name = string_of_chars(&dirs[k]);
        let item = TreeItem { mode: 0o40000, name, hash: h.bytes() };
        proof {
            let d = dv[k as int];
            assert(item@.name == d);
            assert(item@.hash == bytes_of_words(sha1_digest(tree_raw(es, sub@))));
            assert(subtree_hash(es, prefix@, d) == bytes_of_words(sha1_digest(tree_raw(es, sub@))));
            assert(item@ == TreeItemView { mode: dir_mode(), name: d, hash: subtree_hash(es, prefix@, d) });
        }
        let ghost iv0 = item_views(items@);
        items.push(item);
        proof {
            assert(item_views(items@) =~= iv0.push(item@));
        }
        k += 1;
    }
    let ghost di = item_views(items@);
    let nf = files.len();
    let mut f: usize = 0;
    proof {
        assert(file_items(entries_at(es, files@.take(0))) =~= Seq::<TreeItemView>::empty());
        assert(item_views(items@) =~= di + file_items(entries_at(es, files@.take(0))));
    }
    while f < nf
        invariant
            f <= nf,
            nf == files@.len(),
            es == views(entries@),
            forall|j: int| 0 <= j < files@.len() ==> #[trigger] files@[j] < entries@.len(),
            item_views(items@) == di + file_items(entries_at(es, files@.take(f as int))),
        decreases nf - f,
    {
        let e = &entries[files[f]];
        let cs = str_to_chars(e.name.as_str());
        let name = last_component_exec(&cs);
        let item = TreeItem { mode: e.mode, name, hash: e.sha1 };
        let ghost iv0 = item_views(items@);
        items.push(item);
        proof {
            let ev = es[files@[f as int] as int];
            assert(ev == entries@[files@[f as int] as int]@);
            assert(entries_at(es, files@.take(f + 1)) =~= entries_at(es, files@.take(f as int)).push(
                ev,
            ));
            assert(file_items(entries_at(es, files@.take(f + 1))) =~= file_items(
                entries_at(es, files@.take(f as int)),
            ).push(item@));
            assert(item_views(items@) =~= iv0.push(item@));
        }
        f += 1;
    }
    proof {
        assert(files@.take(nf as int) =~= files@);
    }
    let items = sort_items_exec(items);
    let data = items_bytes_exec(&items);
    let mut raw: Vec<u8> = Vec::new();
    push_str_bytes(&mut raw, "tree ");
    push_decimal(&mut raw, data.len() as u64);
    raw.push(0);
    raw.extend_from_slice(data.as_slice());
    proof {
        assert(raw@ =~= tree_raw(es, prefix@));
    }
    let obj = store_object(raw.as_slice());
    let h = obj.hash;
    let ghost before = out@;
    out.push(obj);
    proof {
        assert(out@.skip(o0.len() as int) =~= before.skip(o0.len() as int).push(obj));
        assert(tree_objects(es, prefix@) == dir_objects(es, prefix@, dv, nd as int).push(tree_raw(es, prefix@)));
        assert(out@.subrange(0, o0.len() as int) =~= before.subrange(0, o0.len() as int));
    }
    h
}

/// The tree objects of the directory `prefix` of the index `entries` (the
/// whole index for an empty prefix): the hash of its tree, and every tree
/// object to store, those of its subdirectories first.
pub fn write_tree(entries: &Vec<IndexFile>, prefix: &str) -> (r: (Sha1, Vec<StoredObject>))
    requires
        prefix@.len() > 0 || no_leading_slash(views(entries@)),
    ensures
        r.0.state() == sha1_digest(tree_raw(views(entries@), prefix@)),
        objects_stored(r.1@, tree_objects(views(entries@), prefix@)),
        r.1@.len() > 0 && r.1@.last().hash.state() == r.0.state(),
{
    let p = str_to_chars(prefix);
    let mut out: Vec<StoredObject> = Vec::new();
    let h = write_tree_rec(entries, &p, &mut out);
    proof {
        assert(out@.skip(0) =~= out@);
    }
    (h, out)
}

/// Items in order of their names.
pub open spec fn items_sorted(s: Seq<TreeItemView>) -> bool {
    forall|i: int, j: int|
        0 <= i < j < s.len() ==> bytes_le(
            encode_utf8((#[trigger] s[i]).name),
            encode_utf8((#[trigger] s[j]).name),
        )
}

proof fn lemma_insert_item(s: Seq<TreeItemView>, x: TreeItemView)
    requires
        items_sorted(s),
    ensures
        items_sorted(insert_item(s, x)),
        insert_item(s, x).to_multiset() == s.to_multiset().insert(x),
    decreases s.len(),
{
    broadcast use vstd::seq_lib::group_to_multiset_ensures;

    if s.len() == 0 {
        assert(seq![x] =~= Seq::<TreeItemView>::empty().push(x));
    } else if bytes_le(encode_utf8(s.last().name), encode_utf8(x.name)) {
        let r = s.push(x);
        assert forall|i: int, j: int| 0 <= i < j < r.len() implies bytes_le(
            encode_utf8((#[trigger] r[i]).name),
            encode_utf8((#[trigger] r[j]).name),
        ) by {
            if j == r.len() - 1 && i < s.len() - 1 {
                lemma_bytes_le_transitive(
                    encode_utf8(s[i].name),
                    encode_utf8(s.last().name),
                    encode_utf8(x.name),
                );
            }
        }
    } else {
        let first = s.drop_last();
        assert(items_sorted(first));
        lemma_insert_item(first, x);
        lemma_bytes_le_total(encode_utf8(s.last().name), encode_utf8(x.name));
        let m = insert_item(first, x);
        let r = m.push(s.last());
        assert forall|i: int, j: int| 0 <= i < j < r.len() implies bytes_le(
            encode_utf8((#[trigger] r[i]).name),
            encode_utf8((#[trigger] r[j]).name),
        ) by {
            if j == r.len() - 1 && m[i] != x {
                assert(m.to_multiset().count(m[i]) > 0);
                assert(first.to_multiset().count(m[i]) > 0);
                let k = choose|k: int| 0 <= k < first.len() && first[k] == m[i];
                assert(s[k] == m[i]);
                assert(bytes_le(encode_utf8(s[k].name), encode_utf8(s[s.len() - 1].name)));
            }
        }
        assert(s =~= first.push(s.last()));
    }
}

/// The items of a tree are written in order of their names, each item as
/// often as given.
pub proof fn lemma_sort_items_sorted(s: Seq<TreeItemView>)
    ensures
        items_sorted(sort_items(s)),
        sort_items(s).to_multiset() == s.to_multiset(),
    decreases s.len(),
{
    broadcast use vstd::seq_lib::group_to_multiset_ensures;

    if s.len() == 0 {
        assert(sort_items(s).to_multiset() =~= s.to_multiset());
    } else {
        lemma_sort_items_sorted(s.drop_last());
        lemma_insert_item(sort_items(s.drop_last()), s.last());
        assert(s =~= s.drop_last().push(s.last()));
    }
}

} // verus!
