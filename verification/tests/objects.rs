use lib::indx::IndexFile;
use lib::objects::{get_head, head_ref_path, set_head, store_object, write_blob, write_commit};
use lib::os::env::get_time_zone_string;
use lib::sha1::Sha1;
use lib::tree::write_tree;
use lib::zlib;

fn inflate(data: &[u8]) -> Vec<u8> {
    let mut out = Vec::new();
    assert!(zlib::decompress(data.to_vec(), &mut out).is_some());
    out
}

fn entry(name: &str, seed: u8) -> IndexFile {
    IndexFile {
        sha1: [seed; 20],
        name: name.to_string(),
        mode: 0o100644,
        size: 1,
        ctime_sec: 0,
        ctime_nsec: 0,
        mtime_sec: 0,
        mtime_nsec: 0,
        dev: 0,
        ino: 0,
        uid: 0,
        gid: 0,
    }
}

#[test]
fn blob_of_hello() {
    let o = write_blob(b"hello\n");
    assert_eq!(o.hash.hex(), "ce013625030ba8dba906f756967f9e9ca394464a");
    assert_eq!(inflate(&o.data), b"blob 6\0hello\n".to_vec());
}

#[test]
fn blob_of_empty_file() {
    let o = write_blob(b"");
    assert_eq!(o.hash.hex(), "e69de29bb2d1d6434b8b29ae775ad8c2e48c5391");
    assert_eq!(inflate(&o.data), b"blob 0\0".to_vec());
}

#[test]
fn store_object_hashes_and_compresses() {
    let o = store_object(b"abc");
    assert_eq!(o.hash.hex(), "a9993e364706816aba3e25717850c26c9cd0d89d");
    assert_eq!(inflate(&o.data), b"abc".to_vec());
}

#[test]
fn tree_of_nested_index() {
    let entries = vec![entry("src/main.rs", 1), entry("README.md", 2), entry("src/lib.rs", 3)];
    let (hash, objects) = write_tree(&entries, "");
    assert_eq!(hash.hex(), "5e81647e90ead2d5f9fe1040d444800944c5ce14");
    assert_eq!(objects.len(), 2);
    assert_eq!(objects[0].hash.hex(), "1554852bff092101cb8fd538a49315d16c649a61");
    assert_eq!(objects[1].hash.hex(), "5e81647e90ead2d5f9fe1040d444800944c5ce14");
    let mut src = b"tree 69\0100644 lib.rs\0".to_vec();
    src.extend_from_slice(&[3u8; 20]);
    src.extend_from_slice(b"100644 main.rs\0");
    src.extend_from_slice(&[1u8; 20]);
    assert_eq!(objects[0].data, store_object(&src).data);
    let mut root = b"tree 67\0100644 README.md\0".to_vec();
    root.extend_from_slice(&[2u8; 20]);
    root.extend_from_slice(b"40000 src\0");
    root.extend_from_slice(&objects[0].hash.bytes());
    assert_eq!(objects[1].data, store_object(&root).data);
    assert_eq!(inflate(&objects[1].data), root);
    assert_eq!(inflate(&objects[0].data), src);
}

#[test]
fn tree_of_a_subdirectory() {
    let entries = vec![entry("src/main.rs", 1), entry("README.md", 2), entry("src/lib.rs", 3)];
    let (hash, objects) = write_tree(&entries, "src");
    assert_eq!(hash.hex(), "1554852bff092101cb8fd538a49315d16c649a61");
    assert_eq!(objects.len(), 1);
}

#[test]
fn tree_of_empty_index() {
    let (hash, objects) = write_tree(&Vec::new(), "");
    assert_eq!(hash.hex(), "4b825dc642cb6eb9a060e54bf8d69288fbee4904");
    assert_eq!(objects.len(), 1);
}

#[test]
fn commit_without_and_with_parent() {
    let entries = vec![entry("src/main.rs", 1), entry("README.md", 2), entry("src/lib.rs", 3)];
    let (tree, _) = write_tree(&entries, "");
    let c = write_commit(&tree, None, 1_700_000_000, 60, 1_700_000_005, -330, "first commit");
    assert_eq!(c.hash.hex(), "31c4583ff17a124fb5fcf9bc9f222323456360c1");
    let raw = inflate(&c.data);
    assert!(raw.starts_with(b"commit "));
    assert!(raw.ends_with(b"\n\nfirst commit\n"));
    let c2 = write_commit(&tree, Some([b'a'; 40]), 1_700_000_000, 60, 1_700_000_005, -330, "second");
    assert_eq!(c2.hash.hex(), "8201a8e57783a327a736666a7f618767e64e5c72");
}

#[test]
fn time_zone_strings() {
    assert_eq!(get_time_zone_string(0), "+0000");
    assert_eq!(get_time_zone_string(60), "+0100");
    assert_eq!(get_time_zone_string(-330), "-0530");
    assert_eq!(get_time_zone_string(345), "+0545");
    assert_eq!(get_time_zone_string(-5), "-0005");
    assert_eq!(get_time_zone_string(6000), "+10000");
}

#[test]
fn head_reference_path() {
    assert_eq!(head_ref_path("ref: refs/heads/master\n").unwrap(), ".git/refs/heads/master");
    assert_eq!(head_ref_path("ref:  refs/heads/x  ").unwrap(), ".git/ refs/heads/x");
    assert_eq!(head_ref_path("0123456789").err().unwrap(), "HEAD file corrupted");
    assert_eq!(head_ref_path("ref").err().unwrap(), "HEAD file corrupted");
}

#[test]
fn head_hash_from_reference() {
    assert_eq!(get_head(b"").unwrap(), None);
    let hash = [b'f'; 40];
    assert_eq!(get_head(&hash).unwrap(), Some(hash));
    assert_eq!(get_head(b"abc").err().unwrap(), "HEAD hash corrupted");
}

#[test]
fn set_head_writes_the_hex_hash() {
    let mut h = Sha1::new();
    h.encrypt(b"abc");
    let (path, content) = set_head("ref: refs/heads/main\n", &h).unwrap();
    assert_eq!(path, ".git/refs/heads/main");
    assert_eq!(content, b"a9993e364706816aba3e25717850c26c9cd0d89d".to_vec());
    assert_eq!(set_head("broken", &h).err().unwrap(), "HEAD file corrupted");
}

#[test]
fn get_head_reads_what_set_head_writes() {
    let mut h = Sha1::new();
    h.encrypt(b"some commit");
    let (path, content) = set_head("ref: refs/heads/main", &h).unwrap();
    assert_eq!(path, ".git/refs/heads/main");
    let read = get_head(&content).unwrap().unwrap();
    assert_eq!(read.to_vec(), content);
    assert_eq!(String::from_utf8(read.to_vec()).unwrap(), h.hex());
}
