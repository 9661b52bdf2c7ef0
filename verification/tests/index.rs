use lib::indx::{read_index, write_index, IndexError, IndexFile};
use lib::sha1::Sha1;

fn entry(name: &str, seed: u8) -> IndexFile {
    IndexFile {
        sha1: [seed; 20],
        name: name.to_string(),
        mode: 0o100644,
        size: 10 + seed as u32,
        ctime_sec: 1_700_000_000,
        ctime_nsec: 5,
        mtime_sec: 1_700_000_100,
        mtime_nsec: 6,
        dev: 1,
        ino: 2,
        uid: 3,
        gid: 4,
    }
}

fn same(a: &IndexFile, b: &IndexFile) -> bool {
    a.sha1 == b.sha1
        && a.name == b.name
        && a.mode == b.mode
        && a.size == b.size
        && a.ctime_sec == b.ctime_sec
        && a.ctime_nsec == b.ctime_nsec
        && a.mtime_sec == b.mtime_sec
        && a.mtime_nsec == b.mtime_nsec
        && a.dev == b.dev
        && a.ino == b.ino
        && a.uid == b.uid
        && a.gid == b.gid
}

#[test]
fn index_layout_of_one_entry() {
    let bytes = write_index(vec![entry("a.txt", 7)]);
    assert_eq!(&bytes[0..4], b"DIRC");
    assert_eq!(&bytes[4..8], &[0, 0, 0, 2]);
    assert_eq!(&bytes[8..12], &[0, 0, 0, 1]);
    // 62 bytes of fields, hash and flags, 5 of name, one zero, padding to 72.
    assert_eq!(bytes.len(), 12 + 72 + 20);
    assert_eq!(&bytes[12..16], &1_700_000_000u32.to_be_bytes());
    assert_eq!(&bytes[12 + 24..12 + 28], &0o100644u32.to_be_bytes());
    assert_eq!(&bytes[12 + 40..12 + 60], &[7u8; 20]);
    assert_eq!(&bytes[12 + 60..12 + 62], &[0, 5]);
    assert_eq!(&bytes[12 + 62..12 + 67], b"a.txt");
    assert_eq!(&bytes[12 + 67..12 + 72], &[0, 0, 0, 0, 0]);
    let mut h = Sha1::new();
    h.encrypt(&bytes[..bytes.len() - 20]);
    assert_eq!(&bytes[bytes.len() - 20..], &h.bytes());
}

#[test]
fn index_write_then_read_sorted() {
    let entries = vec![entry("src/main.rs", 1), entry("README.md", 2), entry("src/lib.rs", 3)];
    let bytes = write_index(entries.clone());
    let read = read_index(&bytes).unwrap();
    assert_eq!(read.len(), 3);
    assert!(same(&read[0], &entries[1]));
    assert!(same(&read[1], &entries[2]));
    assert!(same(&read[2], &entries[0]));
}

#[test]
fn index_sort_is_stable_for_equal_names() {
    let entries = vec![entry("b", 1), entry("a", 2), entry("b", 3)];
    let read = read_index(&write_index(entries)).unwrap();
    assert_eq!(read[0].name, "a");
    assert_eq!(read[1].sha1, [1u8; 20]);
    assert_eq!(read[2].sha1, [3u8; 20]);
}

#[test]
fn index_of_no_entries() {
    let bytes = write_index(Vec::new());
    assert_eq!(bytes.len(), 32);
    assert_eq!(read_index(&bytes).unwrap().len(), 0);
}

#[test]
fn index_with_unicode_name() {
    let entries = vec![entry("dossier/été.txt", 9)];
    let read = read_index(&write_index(entries.clone())).unwrap();
    assert!(same(&read[0], &entries[0]));
}

#[test]
fn index_errors() {
    assert!(matches!(read_index(b"DIRC"), Err(IndexError::TooSmall)));
    let good = write_index(vec![entry("x", 1)]);

    let mut bad = good.clone();
    bad[3] = b'X';
    assert!(matches!(read_index(&bad), Err(IndexError::InvalidSignature)));

    let mut bad = good.clone();
    bad[7] = 3;
    assert!(matches!(read_index(&bad), Err(IndexError::UnsupportedVersion)));

    let mut bad = good.clone();
    bad[11] = 2;
    assert!(matches!(read_index(&bad), Err(IndexError::Truncated)));

    let mut bad = good.clone();
    bad[12 + 60] = 0x0F;
    bad[12 + 61] = 0xFF;
    assert!(matches!(read_index(&bad), Err(IndexError::NameTooLong)));

    let mut bad = good.clone();
    bad[12 + 62] = 0xFF;
    assert!(matches!(read_index(&bad), Err(IndexError::InvalidUtf8)));

    let mut bad = good.clone();
    bad[12 + 63] = b'y';
    assert!(matches!(read_index(&bad), Err(IndexError::MissingTerminator)));

    let mut bad = good.clone();
    let last = bad.len() - 1;
    bad[last] ^= 0x55;
    assert!(matches!(read_index(&bad), Err(IndexError::ChecksumMismatch)));
}

#[test]
fn index_error_messages() {
    assert_eq!(IndexError::TooSmall.message(), "Index file too small");
    assert_eq!(IndexError::ChecksumMismatch.message(), "index checksum mismatch");
    assert_eq!(
        IndexError::NameTooLong.message(),
        "index entry name too long or missing terminator"
    );
}

#[test]
fn index_without_checksum() {
    let mut data = b"DIRC".to_vec();
    data.extend_from_slice(&[0, 0, 0, 2, 0, 0, 0, 0]);
    assert!(matches!(read_index(&data), Err(IndexError::MissingChecksum)));
    data.extend_from_slice(&[0; 7]);
    assert!(matches!(read_index(&data), Err(IndexError::MissingChecksum)));
    data.push(0);
    assert!(matches!(read_index(&data), Err(IndexError::ChecksumMismatch)));
}
