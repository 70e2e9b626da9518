use std::io::{Cursor, Write};

use comparew::folder::{align_children, FolderKind, FolderNode, FolderStatus};
use comparew::scan::{
    bytes_as_utf8, civil_to_unix, decode_text, entry_action, entry_mtime, is_zip_path,
    read_zip_bytes_entry, scan_dir, scan_zip_bytes, scanned_dir, scanned_file, DirEntry, EntryAction,
    Sha256Stream,
};
use zip::write::SimpleFileOptions;
use zip::{DateTime, ZipWriter};

fn zip_with_time(files: &[(&str, &[u8])], time: Option<DateTime>) -> Vec<u8> {
    let mut writer = ZipWriter::new(Cursor::new(Vec::new()));
    for (name, data) in files {
        let mut options = SimpleFileOptions::default();
        if let Some(time) = time {
            options = options.last_modified_time(time);
        }
        writer.start_file(*name, options).unwrap();
        writer.write_all(data).unwrap();
    }
    writer.finish().unwrap().into_inner()
}

fn zip_bytes(files: &[(&str, &[u8])]) -> Vec<u8> {
    zip_with_time(files, None)
}

#[test]
fn zip_timestamp_change_keeps_equal_content() {
    let t1 = DateTime::from_date_and_time(2020, 1, 1, 0, 0, 0).unwrap();
    let t2 = DateTime::from_date_and_time(2021, 6, 6, 12, 0, 0).unwrap();
    let a = zip_with_time(
        &[("META-INF/MANIFEST.MF", b"Manifest-Version: 1.0\n")],
        Some(t1),
    );
    let b = zip_with_time(
        &[("META-INF/MANIFEST.MF", b"Manifest-Version: 1.0\n")],
        Some(t2),
    );
    let l = scan_zip_bytes(&a).unwrap();
    let r = scan_zip_bytes(&b).unwrap();
    let rows = align_children(&l.children, &r.children);
    assert_eq!(rows[0].name, "META-INF");
    assert_eq!(rows[0].status, FolderStatus::Equal);
}

#[test]
fn nested_jar_same_bytes_equal_without_enter() {
    let inner_bytes = zip_bytes(&[("com/A.class", b"class-bytes")]);
    let left = zip_bytes(&[("BOOT-INF/lib/foo.jar", &inner_bytes)]);
    let right = zip_bytes(&[("BOOT-INF/lib/foo.jar", &inner_bytes)]);
    let l = scan_zip_bytes(&left).unwrap();
    let r = scan_zip_bytes(&right).unwrap();
    let top = align_children(&l.children, &r.children);
    assert_eq!(top[0].name, "BOOT-INF");
    assert_eq!(top[0].status, FolderStatus::Equal);
    let lib = align_children(
        &l.child("BOOT-INF").unwrap().child("lib").unwrap().children,
        &r.child("BOOT-INF").unwrap().child("lib").unwrap().children,
    );
    assert_eq!(lib[0].kind, FolderKind::Archive);
    assert_eq!(lib[0].status, FolderStatus::Equal);
}

#[test]
fn nested_jar_different_bytes_lists_inner_after_scan() {
    let inner_l = zip_bytes(&[("com/A.class", b"old")]);
    let inner_r = zip_bytes(&[("com/A.class", b"new")]);
    let left = zip_bytes(&[("BOOT-INF/lib/foo.jar", &inner_l)]);
    let right = zip_bytes(&[("BOOT-INF/lib/foo.jar", &inner_r)]);
    let l = scan_zip_bytes(&left).unwrap();
    let r = scan_zip_bytes(&right).unwrap();
    let lib = align_children(
        &l.child("BOOT-INF").unwrap().child("lib").unwrap().children,
        &r.child("BOOT-INF").unwrap().child("lib").unwrap().children,
    );
    assert_eq!(lib[0].status, FolderStatus::Different);
    let left_bytes = read_zip_bytes_entry(&left, "BOOT-INF/lib/foo.jar").unwrap();
    let right_bytes = read_zip_bytes_entry(&right, "BOOT-INF/lib/foo.jar").unwrap();
    let inner_l_tree = scan_zip_bytes(&left_bytes).unwrap();
    let inner_r_tree = scan_zip_bytes(&right_bytes).unwrap();
    let inner_rows = align_children(&inner_l_tree.children, &inner_r_tree.children);
    assert_eq!(inner_rows[0].name, "com");
    assert_eq!(inner_rows[0].status, FolderStatus::Different);
}

#[test]
fn corrupt_zip_fails_to_open() {
    let err = scan_zip_bytes(b"not a zip").unwrap_err();
    assert_eq!(err, "无法作为压缩包打开");
}

#[test]
fn empty_zip_scans() {
    let bytes = zip_bytes(&[]);
    let tree = scan_zip_bytes(&bytes).unwrap();
    assert!(tree.children.is_empty());
}

#[test]
fn scanned_file_carries_sha256_and_size() {
    let bytes = zip_bytes(&[("dir/hello.txt", b"hello"), ("lib/x.JAR", b"zz")]);
    let tree = scan_zip_bytes(&bytes).unwrap();
    let file = tree.child("dir").unwrap().child("hello.txt").unwrap();
    assert_eq!(file.kind, FolderKind::File);
    assert_eq!(file.size, Some(5));
    let expected: [u8; 32] = [
        0x2c, 0xf2, 0x4d, 0xba, 0x5f, 0xb0, 0xa3, 0x0e, 0x26, 0xe8, 0x3b, 0x2a, 0xc5, 0xb9, 0xe2,
        0x9e, 0x1b, 0x16, 0x1e, 0x5c, 0x1f, 0xa7, 0x42, 0x5e, 0x73, 0x04, 0x33, 0x62, 0x93, 0x8b,
        0x98, 0x24,
    ];
    assert_eq!(file.hash, Some(expected));
    let jar = tree.child("lib").unwrap().child("x.JAR").unwrap();
    assert_eq!(jar.kind, FolderKind::Archive);
}

#[test]
fn zip_entry_times_become_unix_seconds() {
    let t = DateTime::from_date_and_time(2021, 6, 6, 12, 0, 0).unwrap();
    let bytes = zip_with_time(&[("a.txt", b"x")], Some(t));
    let tree = scan_zip_bytes(&bytes).unwrap();
    assert_eq!(tree.child("a.txt").unwrap().mtime, Some(1_622_980_800));
}

#[test]
fn civil_dates_convert_exactly() {
    assert_eq!(civil_to_unix(1970, 1, 1, 0, 0, 0), Some(0));
    assert_eq!(civil_to_unix(2020, 1, 1, 0, 0, 0), Some(1_577_836_800));
    assert_eq!(civil_to_unix(2000, 2, 29, 23, 59, 59), Some(951_868_799));
    assert_eq!(civil_to_unix(1969, 12, 31, 23, 59, 59), Some(-1));
    assert_eq!(civil_to_unix(2020, 13, 1, 0, 0, 0), None);
    assert_eq!(civil_to_unix(2020, 1, 1, 24, 0, 0), None);
    assert_eq!(entry_mtime(None), None);
    assert_eq!(entry_mtime(Some((2021, 6, 6, 12, 0, 0))), Some(1_622_980_800));
}

#[test]
fn missing_entry_cannot_be_read() {
    let bytes = zip_bytes(&[("a.txt", b"x")]);
    assert_eq!(read_zip_bytes_entry(&bytes, "b.txt").unwrap_err(), "无法打开文件");
    assert_eq!(read_zip_bytes_entry(&bytes, "a.txt").unwrap(), b"x".to_vec());
    assert_eq!(read_zip_bytes_entry(b"junk", "a.txt").unwrap_err(), "无法作为压缩包打开");
}

#[test]
fn utf8_reading_refuses_nul_and_strips_bom() {
    assert_eq!(bytes_as_utf8(b"ab\0c").unwrap_err(), "无法读取文件：不是有效的 UTF-8");
    assert_eq!(bytes_as_utf8(&[0xff, 0xfe]).unwrap_err(), "无法读取文件：不是有效的 UTF-8");
    assert_eq!(bytes_as_utf8(&[0xef, 0xbb, 0xbf, b'h', b'i']).unwrap(), "hi");
    assert_eq!(bytes_as_utf8("你好".as_bytes()).unwrap(), "你好");
}

#[test]
fn decode_text_rejects_invalid_utf8() {
    assert_eq!(decode_text(&[0xff, 0xfe, 0xfd]).unwrap_err(), "无法读取文件：不是有效的 UTF-8");
}

#[test]
fn decode_text_strips_utf8_bom() {
    let mut bytes = vec![0xef, 0xbb, 0xbf];
    bytes.extend_from_slice("hello".as_bytes());
    assert_eq!(decode_text(&bytes).unwrap(), "hello");
    assert_eq!(decode_text(b"a\0b").unwrap(), "a\0b");
}

#[test]
fn zip_paths_are_known_by_their_file_name() {
    assert!(is_zip_path("/tmp/app.JAR"));
    assert!(is_zip_path("dist/app.war/."));
    assert!(!is_zip_path("dist/app.war/.."));
    assert!(!is_zip_path("notes.txt"));
    assert!(!is_zip_path(""));
    assert!(!is_zip_path("/"));
}

const HELLO_SHA256: [u8; 32] = [
    0x2c, 0xf2, 0x4d, 0xba, 0x5f, 0xb0, 0xa3, 0x0e, 0x26, 0xe8, 0x3b, 0x2a, 0xc5, 0xb9, 0xe2, 0x9e,
    0x1b, 0x16, 0x1e, 0x5c, 0x1f, 0xa7, 0x42, 0x5e, 0x73, 0x04, 0x33, 0x62, 0x93, 0x8b, 0x98, 0x24,
];

fn stream_of(chunks: &[&[u8]]) -> Sha256Stream {
    let mut stream = Sha256Stream::new();
    for chunk in chunks {
        stream.update(chunk);
    }
    stream
}

#[test]
fn identical_directories_are_equal() {
    let left = scan_dir(vec![DirEntry::File(
        "a.txt".to_string(),
        Some(1_600_000_000),
        stream_of(&[b"hello"]),
    )]);
    let right = scan_dir(vec![DirEntry::File(
        "a.txt".to_string(),
        Some(1_700_000_000),
        stream_of(&[b"hel", b"lo"]),
    )]);
    let rows = align_children(&left.children, &right.children);
    assert_eq!(rows[0].status, FolderStatus::Equal);
    assert!(rows[0].left_mtime.is_some());
    assert!(rows[0].right_mtime.is_some());
}

#[test]
fn folder_scan_builds_the_tree() {
    let tree = scan_dir(vec![
        DirEntry::File("a.txt".to_string(), Some(1), stream_of(&[b"old"])),
        DirEntry::Folder(
            "lib".to_string(),
            Some(2),
            vec![DirEntry::File("x.jar".to_string(), None, stream_of(&[b"zz"]))],
        ),
        DirEntry::File("a.txt".to_string(), Some(3), stream_of(&[b"hello"])),
    ]);
    assert_eq!(tree.kind, FolderKind::Dir);
    assert_eq!(tree.mtime, None);
    assert_eq!(tree.children.len(), 2);
    let a = tree.child("a.txt").unwrap();
    assert_eq!(a.hash, Some(HELLO_SHA256));
    assert_eq!(a.size, Some(5));
    assert_eq!(a.mtime, Some(3));
    let lib = tree.child("lib").unwrap();
    assert_eq!(lib.kind, FolderKind::Dir);
    assert_eq!(lib.mtime, Some(2));
    let jar = lib.child("x.jar").unwrap();
    assert_eq!(jar.kind, FolderKind::Archive);
    assert_eq!(jar.size, Some(2));
    assert!(scan_dir(Vec::new()).children.is_empty());
}

#[test]
fn chunked_stream_hashes_the_whole_contents() {
    let stream = stream_of(&[b"he", b"", b"llo"]);
    assert_eq!(stream.len(), 5);
    assert_eq!(stream.finish(), HELLO_SHA256);
    let empty = Sha256Stream::new();
    assert_eq!(empty.len(), 0);
    assert_eq!(
        empty.finish()[..4],
        [0xe3, 0xb0, 0xc4, 0x42],
    );
}

#[test]
fn scanned_folder_file_keeps_hash_size_and_time() {
    let node = scanned_file("notes.txt", stream_of(&[b"hel", b"lo"]), Some(42));
    assert_eq!(node.kind, FolderKind::File);
    assert_eq!(node.hash, Some(HELLO_SHA256));
    assert_eq!(node.size, Some(5));
    assert_eq!(node.mtime, Some(42));
    assert!(node.children.is_empty());
    let jar = scanned_file("lib.Jar", stream_of(&[b"zz"]), None);
    assert_eq!(jar.kind, FolderKind::Archive);
    assert_eq!(jar.size, Some(2));
    assert_eq!(jar.mtime, None);
}

#[test]
fn scanned_folder_keeps_its_entries() {
    let mut nested = FolderNode::dir();
    nested.insert_child("x".to_string(), scanned_file("x", stream_of(&[b"1"]), None));
    let node = scanned_dir(Some(7), nested);
    assert_eq!(node.kind, FolderKind::Dir);
    assert_eq!(node.mtime, Some(7));
    assert_eq!(node.hash, None);
    assert!(node.child("x").is_some());
}

#[test]
fn folder_links_are_not_followed() {
    assert_eq!(entry_action(true, false, false), EntryAction::Skip);
    assert_eq!(entry_action(true, false, true), EntryAction::HashIfReadable);
    assert_eq!(entry_action(false, true, false), EntryAction::Descend);
    assert_eq!(entry_action(false, false, true), EntryAction::Hash);
    assert_eq!(entry_action(false, false, false), EntryAction::Skip);
}
