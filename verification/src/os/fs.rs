//! Paths as lists of components, the items of a directory, file times and
//! wide (UTF-16) strings.
use vstd::prelude::*;
use vstd::utf8::is_scalar;

use crate::args::{find_char, lemma_find_char_some};
use crate::text::str_to_chars;

verus! {

/// `char::from_u32` (std): the character of the value `i`, where `i` is a
/// Unicode scalar value, else none, as std's documentation states.
pub assume_specification[ <char>::from_u32 ](i: u32) -> (r: Option<char>)
    ensures
        r == (if is_scalar(i) {
            Some(i as char)
        } else {
            None::<char>
        }),
;

/// A path: its components, from the root on.
#[derive(Debug, Clone)]
pub struct Path {
    parts: Vec<String>,
}

/// The pieces of `s` between the occurrences of `c`.
pub open spec fn split_on(s: Seq<char>, c: char) -> Seq<Seq<char>>
    decreases s.len(),
{
    match find_char(s, c, 0) {
        None => seq![s],
        Some(k) => {
            proof {
                lemma_find_char_some(s, c, 0, k);
            }
            seq![s.subrange(0, k)] + split_on(s.subrange(k + 1, s.len() as int), c)
        },
    }
}

/// The prefix of a path in the long form of Windows.
pub open spec fn long_path_prefix() -> Seq<char> {
    seq!['\\', '\\', '?', '\\']
}

/// The components of an absolute path written with `\\`: the long-form
/// prefix, if there is one, then the pieces between the `\\`.
pub open spec fn path_parts(s: Seq<char>) -> Seq<Seq<char>> {
    if s.len() >= 4 && s.subrange(0, 4) == long_path_prefix() {
        seq![long_path_prefix()] + split_on(s.subrange(4, s.len() as int), '\\')
    } else {
        split_on(s, '\\')
    }
}

/// The components joined, with `sep` between them.
pub open spec fn join_with(parts: Seq<Seq<char>>, sep: char) -> Seq<char>
    decreases parts.len(),
{
    if parts.len() == 0 {
        Seq::empty()
    } else if parts.len() == 1 {
        parts[0]
    } else {
        join_with(parts.drop_last(), sep) + seq![sep] + parts.last()
    }
}

/// The number of leading components that `a` and `b` share.
pub open spec fn common_len(a: Seq<Seq<char>>, b: Seq<Seq<char>>) -> nat
    decreases a.len(),
{
    if a.len() > 0 && b.len() > 0 && a[0] == b[0] {
        1 + common_len(a.drop_first(), b.drop_first())
    } else {
        0
    }
}

/// The UTF-16 code units of a character.
pub open spec fn utf16_of(c: char) -> Seq<u16> {
    let v = c as u32;
    if v < 0x10000 {
        seq![v as u16]
    } else {
        let w = v - 0x10000;
        seq![(0xD800 + w / 0x400) as u16, (0xDC00 + w % 0x400) as u16]
    }
}

/// The UTF-16 code units of a string.
pub open spec fn encode_utf16(s: Seq<char>) -> Seq<u16>
    decreases s.len(),
{
    if s.len() == 0 {
        Seq::empty()
    } else {
        encode_utf16(s.drop_last()) + utf16_of(s.last())
    }
}

/// The characters of UTF-16 code units, each unpaired surrogate read as the
/// replacement character U+FFFD.
pub open spec fn decode_utf16_lossy(u: Seq<u16>) -> Seq<char>
    decreases u.len(),
{
    if u.len() == 0 {
        Seq::empty()
    } else if u[0] < 0xD800 || u[0] > 0xDFFF {
        seq![u[0] as char] + decode_utf16_lossy(u.drop_first())
    } else if u[0] <= 0xDBFF && u.len() >= 2 && 0xDC00 <= u[1] <= 0xDFFF {
        seq![(0x10000 + (u[0] - 0xD800) * 0x400 + (u[1] - 0xDC00)) as char] + decode_utf16_lossy(
            u.subrange(2, u.len() as int),
        )
    } else {
        seq!['\u{FFFD}'] + decode_utf16_lossy(u.drop_first())
    }
}

impl View for Path {
    type V = Seq<Seq<char>>;

    closed spec fn view(&self) -> Seq<Seq<char>> {
        self.parts@.map_values(|p: String| p@)
    }
}

/// Appends the pieces of `cs[from..]` between the occurrences of `sep`.
pub(crate) fn split_push(parts: &mut Vec<String>, cs: &Vec<char>, from: usize, sep: char)
    requires
        from <= cs@.len(),
    ensures
        final(parts)@.map_values(|p: String| p@) == old(parts)@.map_values(|p: String| p@)
            + split_on(cs@.subrange(from as int, cs@.len() as int), sep),
    decreases cs@.len() - from,
{
    let n = cs.len();
    let ghost s = cs@.subrange(from as int, n as int);
    let mut k = from;
    while k < n && cs[k] != sep
        invariant
            from <= k <= n,
            n == cs@.len(),
            s == cs@.subrange(from as int, n as int),
            find_char(s, sep, 0) == find_char(s, sep, k - from),
        decreases n - k,
    {
        k += 1;
    }
    let mut piece = String::new();
    let mut q = from;
    while q < k
        invariant
            from <= q <= k <= n,
            n == cs@.len(),
            piece@ == cs@.subrange(from as int, q as int),
        decreases k - q,
    {
        piece.push(cs[q]);
        proof {
            assert(piece@ =~= cs@.subrange(from as int, q + 1));
        }
        q += 1;
    }
    let ghost p0 = parts@.map_values(|p: String| p@);
    parts.push(piece);
    proof {
        assert(parts@.map_values(|p: String| p@) =~= p0.push(piece@));
    }
    if k < n {
        proof {
            assert(s[k - from] == sep);
            assert(find_char(s, sep, 0) == Some(k - from));
            assert(s.subrange(0, k - from) =~= piece@);
            assert(s.subrange(k - from + 1, s.len() as int) =~= cs@.subrange(k + 1, n as int));
        }
        let ghost p1 = parts@.map_values(|p: String| p@);
        split_push(parts, cs, k + 1, sep);
        proof {
            assert(p0.push(piece@) =~= p0 + seq![piece@]);
            assert(p1 + split_on(cs@.subrange(k + 1, n as int), sep) =~= p0 + (seq![piece@]
                + split_on(cs@.subrange(k + 1, n as int), sep)));
        }
    } else {
        proof {
            assert(s =~= piece@);
            assert(p0.push(piece@) =~= p0 + seq![s]);
        }
    }
}

impl Path {
    /// The path of the absolute path `absolute`, as the system writes it
    /// with `\\`.
    pub fn from_full_path(absolute: &str) -> (p: Path)
        ensures
            p@ == path_parts(absolute@),
    {
        let cs = str_to_chars(absolute);
        let mut parts: Vec<String> = Vec::new();
        let long = cs.len() >= 4 && cs[0] == '\\' && cs[1] == '\\' && cs[2] == '?' && cs[3]
            == '\\';
        proof {
            assert(long == (cs@.len() >= 4 && cs@.subrange(0, 4) == long_path_prefix())) by {
                if cs@.len() >= 4 && cs@.subrange(0, 4) == long_path_prefix() {
                    assert(cs@.subrange(0, 4)[2] == '?');
                    assert(cs@[0] == cs@.subrange(0, 4)[0]);
                    assert(cs@[1] == cs@.subrange(0, 4)[1]);
                    assert(cs@[3] == cs@.subrange(0, 4)[3]);
                }
                if long {
                    assert(cs@.subrange(0, 4) =~= long_path_prefix());
                }
            }
            assert(parts@.map_values(|p: String| p@) =~= Seq::<Seq<char>>::empty());
        }
        if long {
            let mut prefix = String::new();
            prefix.push('\\');
            prefix.push('\\');
            prefix.push('?');
            prefix.push('\\');
            assert(prefix@ =~= long_path_prefix());
            parts.push(prefix);
            proof {
                assert(parts@.map_values(|p: String| p@) =~= seq![long_path_prefix()]);
            }
            split_push(&mut parts, &cs, 4, '\\');
        } else {
            split_push(&mut parts, &cs, 0, '\\');
            proof {
                assert(cs@.subrange(0, cs@.len() as int) =~= cs@);
            }
        }
        Path { parts }
    }

    /// The path with `part` as one more component.
    pub fn join(self, part: &str) -> (p: Path)
        ensures
            p@ == self@.push(part@),
    {
        let mut parts = self.parts;
        let ghost p0 = parts@.map_values(|p: String| p@);
        parts.push(part.to_owned());
        proof {
            assert(parts@.map_values(|p: String| p@) =~= p0.push(part@));
        }
        Path { parts }
    }

    /// The components joined with `sep`.
    fn joined(&self, sep: char) -> (s: String)
        ensures
            s@ == join_with(self@, sep),
    {
        let ghost v = self@;
        let mut s = String::new();
        let n = self.parts.len();
        let mut k: usize = 0;
        proof {
            assert(v.take(0) =~= Seq::<Seq<char>>::empty());
        }
        while k < n
            invariant
                k <= n,
                n == v.len(),
                v == self@,
                s@ == join_with(v.take(k as int), sep),
            decreases n - k,
        {
            if k > 0 {
                s.push(sep);
            }
            let ghost s0 = s@;
            let cs = str_to_chars(self.parts[k].as_str());
            let m = cs.len();
            let mut q: usize = 0;
            while q < m
                invariant
                    q <= m,
                    m == cs@.len(),
                    s@ == s0 + cs@.subrange(0, q as int),
                decreases m - q,
            {
                s.push(cs[q]);
                proof {
                    assert(s@ =~= s0 + cs@.subrange(0, q + 1));
                }
                q += 1;
            }
            proof {
                assert(cs@.subrange(0, m as int) =~= cs@);
                assert(v[k as int] == cs@);
                assert(v.take(k + 1).drop_last() =~= v.take(k as int));
                if k == 0 {
                    assert(s@ =~= join_with(v.take(1), sep));
                } else {
                    assert(s@ =~= join_with(v.take(k + 1), sep));
                }
            }
            k += 1;
        }
        proof {
            assert(v.take(n as int) =~= v);
        }
        s
    }

    /// The path as the system writes it, with `\\` between the components.
    pub fn display(&self) -> (s: String)
        ensures
            s@ == join_with(self@, '\\'),
    {
        self.joined('\\')
    }

    /// The path relative to `current`: the components after those it shares
    /// with `current`, joined with `/`.
    pub fn normalize_string(&self, current: &Path) -> (s: String)
        ensures
            s@ == join_with(self@.skip(common_len(current@, self@) as int), '/'),
    {
        let ghost a = current@;
        let ghost b = self@;
        let na = current.parts.len();
        let nb = self.parts.len();
        let mut k: usize = 0;
        assert(a.skip(0) =~= a);
        assert(b.skip(0) =~= b);
        while k < na && k < nb && current.parts[k] == self.parts[k]
            invariant
                k <= na,
                k <= nb,
                na == a.len(),
                nb == b.len(),
                a == current@,
                b == self@,
                common_len(a, b) == k + common_len(a.skip(k as int), b.skip(k as int)),
            decreases na - k,
        {
            proof {
                assert(a.skip(k as int)[0] == a[k as int]);
                assert(b.skip(k as int)[0] == b[k as int]);
                assert(a.skip(k as int).drop_first() =~= a.skip(k + 1));
                assert(b.skip(k as int).drop_first() =~= b.skip(k + 1));
            }
            k += 1;
        }
        proof {
            if k < na && k < nb {
                assert(a.skip(k as int)[0] != b.skip(k as int)[0]);
            }
            assert(common_len(a.skip(k as int), b.skip(k as int)) == 0);
        }
        let mut rest: Vec<String> = Vec::new();
        let mut q = k;
        while q < nb
            invariant
                k <= q <= nb,
                nb == b.len(),
                b == self@,
                rest@.map_values(|p: String| p@) == b.subrange(k as int, q as int),
            decreases nb - q,
        {
            let ghost r0 = rest@.map_values(|p: String| p@);
            let part = self.parts[q].clone();
            assert(part@ == b[q as int]);
            rest.push(part);
            proof {
                assert(rest@.map_values(|p: String| p@) =~= r0.push(part@));
                assert(b.subrange(k as int, q + 1) =~= b.subrange(k as int, q as int).push(b[q as int]));
            }
            q += 1;
        }
        let p = Path { parts: rest };
        proof {
            assert(p@ =~= b.skip(k as int));
        }
        p.joined('/')
    }

    /// The path as a wide string for the system: the UTF-16 code units of
    /// its display form, then a zero.
    pub fn to_utf16_string(&self) -> (w: Vec<u16>)
        ensures
            w@ == encode_utf16(join_with(self@, '\\')).push(0),
    {
        let s = self.display();
        let cs = str_to_chars(s.as_str());
        let mut w: Vec<u16> = Vec::new();
        let n = cs.len();
        let mut k: usize = 0;
        proof {
            assert(cs@.take(0) =~= Seq::<char>::empty());
        }
        while k < n
            invariant
                k <= n,
                n == cs@.len(),
                w@ == encode_utf16(cs@.take(k as int)),
            decreases n - k,
        {
            let ghost w0 = w@;
            let v = cs[k] as u32;
            if v < 0x10000 {
                w.push(v as u16);
            } else {
                let x = v - 0x10000;
                w.push((0xD800 + x / 0x400) as u16);
                w.push((0xDC00 + x % 0x400) as u16);
            }
            proof {
                assert(cs@.take(k + 1).drop_last() =~= cs@.take(k as int));
                assert(cs@.take(k + 1).last() == cs@[k as int]);
                assert(w@ =~= w0 + utf16_of(cs@[k as int]));
            }
            k += 1;
        }
        w.push(0);
        proof {
            assert(cs@.take(n as int) =~= cs@);
        }
        w
    }
}

/// The directory prefixes, as the system writes them, of the components
/// before the `k`-th: each component followed by `\\`.
pub open spec fn dir_prefix(parts: Seq<Seq<char>>, k: int) -> Seq<char>
    decreases k,
{
    if k <= 0 || k > parts.len() {
        Seq::empty()
    } else {
        dir_prefix(parts, k - 1) + parts[k - 1] + seq!['\\']
    }
}

/// The directories that must exist before the file at `path` can be
/// created, outermost first: one for each component but the last.
pub fn parent_dirs(path: &Path) -> (r: Vec<String>)
    ensures
        r@.len() == (if path@.len() > 1 {
            path@.len() - 1
        } else {
            0
        }),
        forall|k: int| 0 <= k < r@.len() ==> #[trigger] r@[k]@ == dir_prefix(path@, k + 1),
{
    let ghost v = path@;
    let mut r: Vec<String> = Vec::new();
    let n = path.parts.len();
    if n <= 1 {
        return r;
    }
    let mut temp = String::new();
    let mut k: usize = 0;
    while k < n - 1
        invariant
            n == v.len(),
            n > 1,
            v == path@,
            k <= n - 1,
            r@.len() == k,
            temp@ == dir_prefix(v, k as int),
            forall|j: int| 0 <= j < k ==> #[trigger] r@[j]@ == dir_prefix(v, j + 1),
        decreases n - 1 - k,
    {
        let cs = str_to_chars(path.parts[k].as_str());
        let m = cs.len();
        let mut q: usize = 0;
        let ghost t0 = temp@;
        while q < m
            invariant
                q <= m,
                m == cs@.len(),
                temp@ == t0 + cs@.subrange(0, q as int),
            decreases m - q,
        {
            temp.push(cs[q]);
            proof {
                assert(temp@ =~= t0 + cs@.subrange(0, q + 1));
            }
            q += 1;
        }
        temp.push('\\');
        proof {
            assert(cs@.subrange(0, m as int) =~= cs@);
            assert(v[k as int] == cs@);
            assert(temp@ =~= dir_prefix(v, k + 1));
        }
        r.push(temp.clone());
        k += 1;
    }
    r
}

/// An item of a directory: a subdirectory or a file, by name.
#[derive(Debug, Clone)]
pub enum Item {
    Directory(String),
    File(String),
}

impl Item {
    /// Whether the item is a file.
    pub fn is_file(self) -> (r: bool)
        ensures
            r == (self is File),
    {
        match self {
            Item::File(_) => true,
            Item::Directory(_) => false,
        }
    }

    /// Whether the item is a directory.
    pub fn is_dir(self) -> (r: bool)
        ensures
            r == (self is Directory),
    {
        match self {
            Item::File(_) => false,
            Item::Directory(_) => true,
        }
    }

    /// The item's name.
    pub fn name(self) -> (n: String)
        ensures
            n@ == match self {
                Item::File(s) => s@,
                Item::Directory(s) => s@,
            },
    {
        match self {
            Item::File(n) => n,
            Item::Directory(n) => n,
        }
    }
}

/// A file's size and its times of creation and last change, in seconds and
/// nanoseconds.
#[derive(Debug, Clone)]
pub struct FileInfo {
    pub size: u32,
    pub ctime_sec: u32,
    pub ctime_nsec: u32,
    pub mtime_sec: u32,
    pub mtime_nsec: u32,
}

impl Default for FileInfo {
    fn default() -> (f: Self)
        ensures
            f.size == 0 && f.ctime_sec == 0 && f.ctime_nsec == 0 && f.mtime_sec == 0 && f.mtime_nsec
                == 0,
    {
        FileInfo { size: 0, ctime_sec: 0, ctime_nsec: 0, mtime_sec: 0, mtime_nsec: 0 }
    }
}

/// The offset, in units of 100 nanoseconds, that file times are taken from.
pub open spec fn epoch_diff_100ns() -> int {
    11_644_473_600_000_000
}

/// A file time of the system, in units of 100 nanoseconds from its two
/// halves, as seconds and nanoseconds after the offset; the seconds cut to
/// 32 bits.
pub fn win_time_to_sec_and_nsec(high: u32, low: u32) -> (r: (u32, u32))
    requires
        high * 0x1_0000_0000 + low >= epoch_diff_100ns(),
    ensures
        r.0 == ((high * 0x1_0000_0000 + low - epoch_diff_100ns()) / 10_000_000) % 0x1_0000_0000,
        r.1 == ((high * 0x1_0000_0000 + low - epoch_diff_100ns()) % 10_000_000) * 100,
{
    let ft_64: u64 = ((high as u64) << 32) | (low as u64);
    assert(ft_64 == high * 0x1_0000_0000 + low) by (bit_vector)
        requires
            ft_64 == ((high as u64) << 32) | (low as u64),
    ;
    let utc_100ns = ft_64 - 11_644_473_600_000_000;
    let sec = utc_100ns / 10_000_000;
    let nsec = (utc_100ns % 10_000_000) * 100;
    assert((sec as u32) as int == sec % 0x1_0000_0000) by (bit_vector);
    (sec as u32, nsec as u32)
}

/// The first position of a zero in `buf`.
pub open spec fn first_zero(buf: Seq<u16>) -> int
    recommends
        exists|i: int| 0 <= i < buf.len() && buf[i] == 0,
{
    choose|i: int| 0 <= i < buf.len() && buf[i] == 0 && forall|j: int| 0 <= j < i ==> buf[j] != 0
}

/// The name in a buffer of UTF-16 code units ended by a zero: the code
/// units before the first zero, read with U+FFFD for unpaired surrogates.
pub fn get_name_from_buf(name_buf: &[u16]) -> (name: String)
    requires
        exists|i: int| 0 <= i < name_buf@.len() && name_buf@[i] == 0,
    ensures
        0 <= first_zero(name_buf@) < name_buf@.len(),
        name@ == decode_utf16_lossy(name_buf@.take(first_zero(name_buf@))),
{
    let ghost b = name_buf@;
    let mut len: usize = 0;
    while name_buf[len] != 0
        invariant
            len < b.len(),
            b == name_buf@,
            exists|i: int| len <= i < b.len() && b[i] == 0,
            forall|j: int| 0 <= j < len ==> b[j] != 0,
        decreases b.len() - len,
    {
        len += 1;
    }
    proof {
        let i = first_zero(b);
        assert(0 <= len < b.len() && b[len as int] == 0 && forall|j: int| 0 <= j < len ==> b[j] != 0);
        assert(i == len) by {
            if i < len {
                assert(b[i] != 0);
            }
            if i > len {
                assert(b[len as int] != 0);
            }
        }
    }
    let ghost u = b.take(len as int);
    let mut s = String::new();
    let mut k: usize = 0;
    proof {
        assert(u.skip(0) =~= u);
    }
    while k < len
        invariant
            k <= len,
            len < b.len(),
            b == name_buf@,
            u == b.take(len as int),
            s@ + decode_utf16_lossy(u.skip(k as int)) == decode_utf16_lossy(u),
        decreases len - k,
    {
        let c = name_buf[k];
        let ghost rest = u.skip(k as int);
        assert(rest[0] == c);
        if c < 0xD800 || c > 0xDFFF {
            let ch = match char::from_u32(c as u32) {
                Some(x) => x,
                None => '\u{FFFD}',
            };
            proof {
                assert(is_scalar(c as u32));
                assert(rest.drop_first() =~= u.skip(k + 1));
                assert(ch == c as char);
            }
            s.push(ch);
            proof {
                assert(s@ + decode_utf16_lossy(u.skip(k + 1)) =~= decode_utf16_lossy(u));
            }
            k += 1;
        } else if c <= 0xDBFF && k + 1 < len && 0xDC00 <= name_buf[k + 1] && name_buf[k + 1]
            <= 0xDFFF {
            let d = name_buf[k + 1];
            let v: u32 = 0x10000 + ((c as u32) - 0xD800) * 0x400 + ((d as u32) - 0xDC00);
            let ch = match char::from_u32(v) {
                Some(x) => x,
                None => '\u{FFFD}',
            };
            proof {
                assert(rest[1] == d);
                assert(is_scalar(v));
                assert(rest.subrange(2, rest.len() as int) =~= u.skip(k + 2));
                assert(ch == v as char);
            }
            s.push(ch);
            proof {
                assert(s@ + decode_utf16_lossy(u.skip(k + 2)) =~= decode_utf16_lossy(u));
            }
            k += 2;
        } else {
            proof {
                assert(rest.drop_first() =~= u.skip(k + 1));
                if k + 1 < len {
                    assert(rest[1] == name_buf@[k + 1]);
                }
            }
            s.push('\u{FFFD}');
            proof {
                assert(s@ + decode_utf16_lossy(u.skip(k + 1)) =~= decode_utf16_lossy(u));
            }
            k += 1;
        }
    }
    proof {
        assert(u.skip(len as int) =~= Seq::<u16>::empty());
        assert(s@ + decode_utf16_lossy(u.skip(len as int)) =~= s@);
    }
    s
}

proof fn lemma_common_len_prefix(a: Seq<Seq<char>>, rest: Seq<Seq<char>>)
    ensures
        common_len(a, a + rest) == a.len(),
    decreases a.len(),
{
    if a.len() > 0 {
        assert((a + rest)[0] == a[0]);
        assert((a + rest).drop_first() =~= a.drop_first() + rest);
        lemma_common_len_prefix(a.drop_first(), rest);
    }
}

/// A path under the current directory is written relative to it: the
/// components after those of the current directory, joined with `/`.
pub proof fn lemma_normalize_under_current(current: Seq<Seq<char>>, rest: Seq<Seq<char>>)
    ensures
        join_with(
            (current + rest).skip(common_len(current, current + rest) as int),
            '/',
        ) == join_with(rest, '/'),
{
    lemma_common_len_prefix(current, rest);
    assert((current + rest).skip(current.len() as int) =~= rest);
}

} // verus!
