use lib::os::error::{ErrorCode, ErrorType};
use lib::os::fs::{get_name_from_buf, parent_dirs, win_time_to_sec_and_nsec, FileInfo, Item, Path};

#[test]
fn path_from_full_path_and_display() {
    let p = Path::from_full_path(r"C:\Users\me\repo");
    assert_eq!(p.display(), r"C:\Users\me\repo");
    let q = p.clone().join("src").join("main.rs");
    assert_eq!(q.display(), r"C:\Users\me\repo\src\main.rs");
}

#[test]
fn path_long_form_prefix() {
    let p = Path::from_full_path(r"\\?\C:\very\long");
    assert_eq!(p.display(), r"\\?\\C:\very\long");
}

#[test]
fn path_normalize_relative_to_current() {
    let current = Path::from_full_path(r"C:\work\repo");
    let file = Path::from_full_path(r"C:\work\repo\src\lib.rs");
    assert_eq!(file.normalize_string(&current), "src/lib.rs");
    let other = Path::from_full_path(r"D:\elsewhere\x");
    assert_eq!(other.normalize_string(&current), "D:/elsewhere/x");
    assert_eq!(current.normalize_string(&current), "");
}

#[test]
fn path_to_utf16() {
    let p = Path::from_full_path(r"C:\é😀");
    let w = p.to_utf16_string();
    let expected: Vec<u16> = r"C:\é😀".encode_utf16().chain(Some(0)).collect();
    assert_eq!(w, expected);
}

#[test]
fn parent_directories_to_create() {
    let p = Path::from_full_path(r"C:\repo\.git\objects\ab\cdef");
    assert_eq!(
        parent_dirs(&p),
        vec![
            r"C:\".to_string(),
            r"C:\repo\".to_string(),
            r"C:\repo\.git\".to_string(),
            r"C:\repo\.git\objects\".to_string(),
            r"C:\repo\.git\objects\ab\".to_string()
        ]
    );
    assert!(parent_dirs(&Path::from_full_path("file")).is_empty());
}

#[test]
fn items_of_a_directory() {
    assert!(Item::File("a".to_string()).is_file());
    assert!(!Item::File("a".to_string()).is_dir());
    assert!(Item::Directory("d".to_string()).is_dir());
    assert_eq!(Item::Directory("d".to_string()).name(), "d");
    assert_eq!(Item::File("f.txt".to_string()).name(), "f.txt");
}

#[test]
fn file_info_default_is_zero() {
    let f = FileInfo::default();
    assert_eq!((f.size, f.ctime_sec, f.ctime_nsec, f.mtime_sec, f.mtime_nsec), (0, 0, 0, 0, 0));
}

#[test]
fn file_time_to_seconds_and_nanoseconds() {
    assert_eq!(win_time_to_sec_and_nsec(2711193, 677534773), (1234, 567_890_100));
    assert_eq!(win_time_to_sec_and_nsec(2711190, 1216757760), (0, 0));
}

#[test]
fn name_from_wide_buffer() {
    let buf = [0x66u16, 0x6F, 0xD83D, 0xDE00, 0xD800, 0x41, 0, 0x42];
    assert_eq!(get_name_from_buf(&buf), "fo\u{1F600}\u{FFFD}A");
    assert_eq!(get_name_from_buf(&[0u16]), "");
    assert_eq!(get_name_from_buf(&[0xDC00u16, 0]), "\u{FFFD}");
}

#[test]
fn error_codes_and_kinds() {
    let e = ErrorCode::new(183);
    assert_eq!(e.code(), 183);
    assert_eq!(e.typ(), ErrorType::DirAlreadyExists);
    assert_eq!(ErrorCode::new(2).typ(), ErrorType::FileNotFound);
    assert_eq!(ErrorCode::new(3).typ(), ErrorType::PathNotFound);
    assert_eq!(ErrorCode::new(5).typ(), ErrorType::AccessDenied);
    assert_eq!(ErrorCode::new(32).typ(), ErrorType::SharingViolation);
    assert_eq!(ErrorCode::new(87).typ(), ErrorType::InvalidParameter);
}
