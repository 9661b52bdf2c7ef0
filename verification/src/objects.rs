//! Git objects: blobs and commits as the bytes that are hashed and stored,
//! and the reference that HEAD names.
use vstd::prelude::*;
use vstd::string::{StrSliceExecFns, StringExecFns};
use vstd::utf8::encode_utf8;

use crate::os::env::{get_time_zone_string, tz_string};
use crate::sha1::{hex_of_words, sha1_digest, Sha1};
use crate::text::{
    decimal, push_decimal, push_str_bytes, str_to_chars, trim, trim_chars,
};
use crate::zlib::compress::{compress, zlib_stream_of};

verus! {

/// An object ready to be stored: its hash and its zlib-compressed bytes.
pub struct StoredObject {
    pub hash: Sha1,
    pub data: Vec<u8>,
}

/// `o` is the stored form of the object of bytes `raw`.
pub open spec fn stored(o: StoredObject, raw: Seq<u8>) -> bool {
    &&& o.hash.state() == sha1_digest(raw)
    &&& zlib_stream_of(o.data@, raw)
}

/// Hashes and compresses the object of bytes `raw`.
pub fn store_object(raw: &[u8]) -> (o: StoredObject)
    ensures
        stored(o, raw@),
{
    let mut hash = Sha1::new();
    hash.encrypt(raw);
    let mut data: Vec<u8> = Vec::new();
    compress(raw, &mut data);
    proof {
        assert(data@.subrange(0, data@.len() as int) =~= data@);
    }
    StoredObject { hash, data }
}

/// The bytes of the blob of a file's content: `blob`, its length in
/// decimal, a zero byte, and the content.
pub open spec fn blob_raw(content: Seq<u8>) -> Seq<u8> {
    encode_utf8("blob "@) + decimal(content.len()) + seq![0u8] + content
}

/// The blob object of a file's content, ready to be stored.
pub fn write_blob(content: &[u8]) -> (o: StoredObject)
    ensures
        stored(o, blob_raw(content@)),
{
    let mut raw: Vec<u8> = Vec::new();
    push_str_bytes(&mut raw, "blob ");
    push_decimal(&mut raw, content.len() as u64);
    raw.push(0);
    raw.extend_from_slice(content);
    proof {
        assert(raw@ =~= blob_raw(content@));
    }
    store_object(raw.as_slice())
}

/// The body of a commit: its tree, its parent if any, author and committer
/// with their times and time zones, and the message.
pub open spec fn commit_body(
    tree: Seq<u32>,
    parent: Option<Seq<u8>>,
    author_time: nat,
    author_tz: int,
    committer_time: nat,
    committer_tz: int,
    msg: Seq<char>,
) -> Seq<u8> {
    encode_utf8("tree "@) + encode_utf8(hex_of_words(tree)) + seq![0x0Au8] + match parent {
        Some(p) => encode_utf8("parent "@) + p + seq![0x0Au8],
        None => Seq::empty(),
    } + encode_utf8("author temp_name <example@gmail.com> "@) + decimal(author_time) + seq![0x20u8]
        + encode_utf8(tz_string(author_tz)) + seq![0x0Au8] + encode_utf8(
        "commiter temp_name <example@gmail.com> "@,
    ) + decimal(committer_time) + seq![0x20u8] + encode_utf8(tz_string(committer_tz)) + seq![
        0x0Au8,
        0x0Au8,
    ] + encode_utf8(msg) + seq![0x0Au8]
}

/// The bytes of a commit object of body `body`.
pub open spec fn commit_raw(body: Seq<u8>) -> Seq<u8> {
    encode_utf8("commit "@) + decimal(body.len()) + seq![0u8] + body
}

/// The commit object of the tree `tree`, on top of `parent` if there is
/// one, by the author and committer at the times and time zones given, with
/// the message `msg`; ready to be stored.
pub fn write_commit(
    tree: &Sha1,
    parent: Option<[u8; 40]>,
    author_time: u64,
    author_tz: i16,
    committer_time: u64,
    committer_tz: i16,
    msg: &str,
) -> (o: StoredObject)
    requires
        author_tz != i16::MIN,
        committer_tz != i16::MIN,
    ensures
        stored(
            o,
            commit_raw(
                commit_body(
                    tree.state(),
                    match parent {
                        Some(p) => Some(p@),
                        None => None,
                    },
                    author_time as nat,
                    author_tz as int,
                    committer_time as nat,
                    committer_tz as int,
                    msg@,
                ),
            ),
        ),
{
    let ghost pv = match parent {
        Some(p) => Some(p@),
        None => None,
    };
    let mut body: Vec<u8> = Vec::new();
    push_str_bytes(&mut body, "tree ");
    let hex = tree.hex();
    push_str_bytes(&mut body, hex.as_str());
    body.push(0x0A);
    let ghost b1 = body@;
    match parent {
        Some(p) => {
            push_str_bytes(&mut body, "parent ");
            body.extend_from_slice(p.as_slice());
            body.push(0x0A);
        },
        None => {},
    }
    let ghost b2 = body@;
    assert(b2 =~= b1 + match pv {
        Some(p) => encode_utf8("parent "@) + p + seq![0x0Au8],
        None => Seq::empty(),
    });
    push_str_bytes(&mut body, "author temp_name <example@gmail.com> ");
    push_decimal(&mut body, author_time);
    body.push(0x20);
    let tz = get_time_zone_string(author_tz);
    push_str_bytes(&mut body, tz.as_str());
    body.push(0x0A);
    push_str_bytes(&mut body, "commiter temp_name <example@gmail.com> ");
    push_decimal(&mut body, committer_time);
    body.push(0x20);
    let tz = get_time_zone_string(committer_tz);
    push_str_bytes(&mut body, tz.as_str());
    body.push(0x0A);
    body.push(0x0A);
    push_str_bytes(&mut body, msg);
    body.push(0x0A);
    proof {
        assert(body@ =~= commit_body(
            tree.state(),
            pv,
            author_time as nat,
            author_tz as int,
            committer_time as nat,
            committer_tz as int,
            msg@,
        ));
    }
    let mut raw: Vec<u8> = Vec::new();
    push_str_bytes(&mut raw, "commit ");
    push_decimal(&mut raw, body.len() as u64);
    raw.push(0);
    raw.extend_from_slice(body.as_slice());
    proof {
        assert(raw@ =~= commit_raw(body@));
    }
    store_object(raw.as_slice())
}

/// The file that HEAD refers to, by the content `head` of `.git/HEAD`:
/// `.git/` and what follows `ref: `, without white space at either end.
pub open spec fn head_ref(head: Seq<char>) -> Option<Seq<char>> {
    if head.len() >= 5 && head.subrange(0, 5) == "ref: "@ {
        Some(trim(".git/"@ + head.subrange(5, head.len() as int)))
    } else {
        None
    }
}

/// The path of the reference that the content `head` of `.git/HEAD` names,
/// or the error that HEAD is corrupted.
pub fn head_ref_path(head: &str) -> (r: Result<String, String>)
    ensures
        match head_ref(head@) {
            Some(p) => r matches Ok(s) && s@ == p,
            None => r matches Err(e) && e@ == "HEAD file corrupted"@,
        },
{
    let cs = str_to_chars(head);
    let prefix = str_to_chars("ref: ");
    proof {
        reveal_strlit("ref: ");
    }
    let n = cs.len();
    if n < 5 {
        return Err("HEAD file corrupted".to_owned());
    }
    let mut k: usize = 0;
    while k < 5
        invariant
            k <= 5,
            n == cs@.len(),
            cs@ == head@,
            n >= 5,
            prefix@ == "ref: "@,
            prefix@.len() == 5,
            forall|j: int| 0 <= j < k ==> cs@[j] == prefix@[j],
        decreases 5 - k,
    {
        if cs[k] != prefix[k] {
            proof {
                assert(cs@.subrange(0, 5) != "ref: "@) by {
                    assert(cs@.subrange(0, 5)[k as int] != prefix@[k as int]);
                }
            }
            return Err("HEAD file corrupted".to_owned());
        }
        k += 1;
    }
    assert(cs@.subrange(0, 5) =~= prefix@);
    let mut full: Vec<char> = str_to_chars(".git/");
    let mut j: usize = 5;
    let ghost start = full@;
    while j < n
        invariant
            5 <= j <= n,
            n == cs@.len(),
            full@ == start + cs@.subrange(5, j as int),
        decreases n - j,
    {
        full.push(cs[j]);
        proof {
            assert(full@ =~= start + cs@.subrange(5, j + 1));
        }
        j += 1;
    }
    Ok(trim_chars(&full))
}

/// The hash of the commit that HEAD's reference holds, by the reference
/// file's content: none for an empty file, the 40 bytes otherwise, or the
/// error that the hash is corrupted.
pub fn get_head(reference: &[u8]) -> (r: Result<Option<[u8; 40]>, String>)
    ensures
        reference@.len() == 0 ==> r matches Ok(None),
        reference@.len() == 40 ==> (r matches Ok(Some(h)) && h@ == reference@),
        reference@.len() != 0 && reference@.len() != 40 ==> (r matches Err(e) && e@
            == "HEAD hash corrupted"@),
{
    if reference.len() == 0 {
        return Ok(None);
    }
    if reference.len() != 40 {
        return Err("HEAD hash corrupted".to_owned());
    }
    let mut h = [0u8; 40];
    let mut k: usize = 0;
    while k < 40
        invariant
            k <= 40,
            reference@.len() == 40,
            h@.len() == 40,
            forall|j: int| 0 <= j < k ==> h@[j] == reference@[j],
        decreases 40 - k,
    {
        h[k] = reference[k];
        k += 1;
    }
    assert(h@ =~= reference@);
    Ok(Some(h))
}

proof fn lemma_encode_ascii(cs: Seq<char>)
    requires
        forall|i: int| 0 <= i < cs.len() ==> (#[trigger] cs[i] as u32) < 0x80,
    ensures
        encode_utf8(cs).len() == cs.len(),
    decreases cs.len(),
{
    if cs.len() > 0 {
        assert forall|i: int| 0 <= i < cs.drop_first().len() implies (#[trigger] cs.drop_first()[i] as u32)
            < 0x80 by {
            assert(cs.drop_first()[i] == cs[i + 1]);
        }
        lemma_encode_ascii(cs.drop_first());
    }
}

proof fn lemma_nibble(x: u32)
    by (bit_vector)
    ensures
        x & 0xfu32 < 16u32,
{
}

/// What `set_head` writes, `get_head` reads back: the hexadecimal digits
/// of any hash value are 40 bytes, so that `get_head` of them gives those
/// very bytes.
pub proof fn lemma_head_hash_roundtrip(h: Seq<u32>)
    ensures
        encode_utf8(hex_of_words(h)).len() == 40,
{
    let cs = hex_of_words(h);
    assert forall|i: int| 0 <= i < cs.len() implies (#[trigger] cs[i] as u32) < 0x80 by {
        lemma_nibble(h[i / 8] >> ((28 - 4 * (i % 8)) as u32));
    }
    lemma_encode_ascii(cs);
}

/// What moving HEAD to `hash` writes: the path of HEAD's reference, by the
/// content `head` of `.git/HEAD`, and the hash's 40 hexadecimal digits; or
/// the error that HEAD is corrupted.
pub fn set_head(head: &str, hash: &Sha1) -> (r: Result<(String, Vec<u8>), String>)
    ensures
        match head_ref(head@) {
            Some(p) => r matches Ok((s, c)) && s@ == p && c@ == encode_utf8(
                hex_of_words(hash.state()),
            ),
            None => r matches Err(e) && e@ == "HEAD file corrupted"@,
        },
{
    let path = head_ref_path(head)?;
    let hex = hash.hex();
    let mut content: Vec<u8> = Vec::new();
    push_str_bytes(&mut content, hex.as_str());
    Ok((path, content))
}

} // verus!
