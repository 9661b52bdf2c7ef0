use lib::sha1::Sha1;

fn digest(data: &[u8]) -> String {
    let mut h = Sha1::new();
    h.encrypt(data);
    h.hex()
}

#[test]
fn sha1_of_abc() {
    assert_eq!(digest(b"abc"), "a9993e364706816aba3e25717850c26c9cd0d89d");
}

#[test]
fn sha1_of_empty_input() {
    assert_eq!(digest(b""), "da39a3ee5e6b4b0d3255bfef95601890afd80709");
}

#[test]
fn sha1_of_several_blocks() {
    assert_eq!(digest(&[b'a'; 1000]), "291e9a6c66994949b57ba5e650361e98fc36b1ba");
    assert_eq!(
        digest(b"The quick brown fox jumps over the lazy dog"),
        "2fd4e1c67a2d28fced849ee1bb76e7391b93eb12"
    );
}

#[test]
fn sha1_of_a_blob() {
    assert_eq!(digest(b"blob 6\0hello\n"), "ce013625030ba8dba906f756967f9e9ca394464a");
}

#[test]
fn sha1_bytes_match_hex() {
    let mut h = Sha1::new();
    h.encrypt(b"abc");
    let bytes = h.bytes();
    let hex: String = bytes.iter().map(|b| format!("{:02x}", b)).collect();
    assert_eq!(hex, h.hex());
    assert_eq!(bytes[0], 0xa9);
    assert_eq!(bytes[19], 0x9d);
}

#[test]
fn sha1_initial_state() {
    let h = Sha1::new();
    assert_eq!(h.hex(), "67452301efcdab8998badcfe10325476c3d2e1f0");
}
