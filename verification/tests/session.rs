use std::io::{Cursor, Write};

use comparew::commands::folder::{FileRead, FolderSession, FolderStore, Source};
use comparew::folder::{FolderKind, FolderNode, FolderStatus};
use comparew::scan::scan_zip_bytes;
use zip::write::SimpleFileOptions;
use zip::ZipWriter;

fn zip_bytes(files: &[(&str, &[u8])]) -> Vec<u8> {
    let mut writer = ZipWriter::new(Cursor::new(Vec::new()));
    for (name, data) in files {
        writer
            .start_file(*name, SimpleFileOptions::default())
            .unwrap();
        writer.write_all(data).unwrap();
    }
    writer.finish().unwrap().into_inner()
}

fn no_files(_: FileRead) -> Result<Vec<u8>, String> {
    Err("无法打开文件".to_string())
}

fn memory_side(bytes: Vec<u8>) -> (Source, FolderNode) {
    let tree = scan_zip_bytes(&bytes).unwrap();
    (Source::Memory(bytes), tree)
}

fn path(parts: &[&str]) -> Vec<String> {
    parts.iter().map(|p| p.to_string()).collect()
}

fn nested_jars() -> (Vec<u8>, Vec<u8>) {
    let inner_l = zip_bytes(&[("com/Hello.class", b"old")]);
    let inner_r = zip_bytes(&[("com/Hello.class", b"new")]);
    let left = zip_bytes(&[("BOOT-INF/lib/foo.jar", &inner_l), ("README.txt", b"prod")]);
    let right = zip_bytes(&[("BOOT-INF/lib/foo.jar", &inner_r), ("README.txt", b"prod")]);
    (left, right)
}

#[test]
fn session_lists_and_enters_nested_jar() {
    let (left, right) = nested_jars();
    let mut session = FolderSession::start(memory_side(left), memory_side(right));
    let roots = session.children_at(&[], &no_files).unwrap();
    assert!(roots.iter().any(|row| row.name == "BOOT-INF"));
    assert!(roots
        .iter()
        .any(|row| { row.name == "README.txt" && row.status == FolderStatus::Equal }));
    let lib = session
        .children_at(&path(&["BOOT-INF", "lib"]), &no_files)
        .unwrap();
    let foo = lib.iter().find(|row| row.name == "foo.jar").unwrap();
    assert_eq!(foo.status, FolderStatus::Different);
    let inner = session
        .children_at(&path(&["BOOT-INF", "lib", "foo.jar"]), &no_files)
        .unwrap();
    assert!(inner
        .iter()
        .any(|row| row.name == "com" && row.status == FolderStatus::Different));
    let class_rows = session
        .children_at(&path(&["BOOT-INF", "lib", "foo.jar", "com"]), &no_files)
        .unwrap();
    assert_eq!(class_rows[0].name, "Hello.class");
    assert_eq!(class_rows[0].status, FolderStatus::Different);
    let left_bytes = session
        .read_path(
            "left",
            &path(&["BOOT-INF", "lib", "foo.jar", "com", "Hello.class"]),
            &no_files,
        )
        .unwrap();
    assert_eq!(left_bytes, b"old");
    let still = session
        .children_at(&path(&["BOOT-INF", "lib"]), &no_files)
        .unwrap();
    assert_eq!(
        still.iter().find(|row| row.name == "foo.jar").unwrap().kind,
        FolderKind::Archive
    );
}

fn hash(byte: u8) -> [u8; 32] {
    let mut value = [0u8; 32];
    value[0] = byte;
    value
}

#[test]
fn session_lists_one_side_without_the_other() {
    let mut tree = FolderNode::dir();
    tree.insert_file("only.txt", FolderKind::File, hash(1), 5);
    tree.insert_file("sub/a.md", FolderKind::File, hash(2), 1);
    let mut session = FolderSession::start(
        (Source::Dir("/left".to_string()), tree),
        (Source::Memory(Vec::new()), FolderNode::dir()),
    );
    let roots = session.children_at(&[], &no_files).unwrap();
    assert!(roots
        .iter()
        .any(|row| { row.name == "only.txt" && row.status == FolderStatus::LeftOnly }));
    let sub = session.children_at(&path(&["sub"]), &no_files).unwrap();
    assert_eq!(sub[0].name, "a.md");
    assert_eq!(sub[0].status, FolderStatus::LeftOnly);
}

#[test]
fn text_entry_reads_utf8() {
    let mut left = FolderNode::dir();
    left.insert_file("a.xml", FolderKind::File, hash(1), 5);
    let mut right = FolderNode::dir();
    right.insert_file("a.xml", FolderKind::File, hash(1), 5);
    let session = FolderSession::start(
        (Source::Dir("L".to_string()), left),
        (Source::Dir("R".to_string()), right),
    );
    let files = |q: FileRead| match q {
        FileRead::InDir(root, parts) if root == "L" && parts == vec!["a.xml".to_string()] => {
            Ok(b"<ok/>".to_vec())
        }
        _ => Err("无法打开文件".to_string()),
    };
    let bytes = session.read_side("left", "a.xml", &files).unwrap();
    assert!(comparew::commands::folder::entry_is_text("a.xml", &bytes));
    assert_eq!(comparew::scan::bytes_as_utf8(&bytes).unwrap(), "<ok/>");
}

#[test]
fn zip_sources_read_entries_by_joined_path() {
    let mut tree = FolderNode::dir();
    tree.insert_file("a/b.txt", FolderKind::File, hash(1), 1);
    let session = FolderSession::start(
        (Source::Zip("left.zip".to_string()), tree),
        (Source::Memory(Vec::new()), FolderNode::dir()),
    );
    let files = |q: FileRead| match q {
        FileRead::InZip(archive, entry) => Ok(format!("{archive}|{entry}").into_bytes()),
        FileRead::InDir(..) => Err("无法打开文件".to_string()),
    };
    let bytes = session.read_path("left", &path(&["a", "b.txt"]), &files).unwrap();
    assert_eq!(bytes, b"left.zip|a/b.txt".to_vec());
    let err = session.read_path("right", &path(&["a", "b.txt"]), &files).unwrap_err();
    assert_eq!(err, "无法打开文件");
    assert_eq!(session.read_path("left", &[], &files).unwrap_err(), "无法打开文件");
}

#[test]
fn entering_a_folder_and_going_up_restores_the_view() {
    let mut left = FolderNode::dir();
    left.insert_file("dir/a.txt", FolderKind::File, hash(1), 1);
    left.insert_file("top.txt", FolderKind::File, hash(2), 1);
    let mut right = FolderNode::dir();
    right.insert_file("dir/a.txt", FolderKind::File, hash(3), 1);
    let mut session = FolderSession::start(
        (Source::Dir("L".to_string()), left),
        (Source::Dir("R".to_string()), right),
    );
    let before: Vec<String> = session.rows.iter().map(|r| r.name.clone()).collect();
    assert_eq!(before, vec!["dir", "top.txt"]);
    session.enter("dir", &no_files).unwrap();
    let summary = session.summary();
    assert_eq!(summary.path_bar, "dir/");
    assert!(summary.can_go_up);
    assert_eq!(summary.row_count, 1);
    assert_eq!(summary.different, 1);
    session.up().unwrap();
    let after: Vec<String> = session.rows.iter().map(|r| r.name.clone()).collect();
    assert_eq!(after, before);
    let summary = session.summary();
    assert_eq!(summary.path_bar, "");
    assert!(!summary.can_go_up);
    assert_eq!(session.up().unwrap_err(), "无法打开文件夹");
}

#[test]
fn entering_refuses_files_conflicts_and_unknown_names() {
    let mut left = FolderNode::dir();
    left.insert_file("f.txt", FolderKind::File, hash(1), 1);
    left.insert_file("x", FolderKind::File, hash(1), 1);
    let mut right = FolderNode::dir();
    right.ensure_dir("x");
    let mut session = FolderSession::start(
        (Source::Dir("L".to_string()), left),
        (Source::Dir("R".to_string()), right),
    );
    assert_eq!(session.enter("f.txt", &no_files).unwrap_err(), "无法打开文件夹");
    assert_eq!(session.enter("x", &no_files).unwrap_err(), "无法打开文件夹");
    assert_eq!(session.enter("missing", &no_files).unwrap_err(), "无法打开文件夹");
    assert!(session.prefix.is_empty());
}

#[test]
fn entering_an_archive_and_going_up_returns() {
    let inner_l = zip_bytes(&[("com/Hello.class", b"old")]);
    let inner_r = zip_bytes(&[("com/Hello.class", b"new")]);
    let left = zip_bytes(&[("foo.jar", &inner_l), ("README.txt", b"prod")]);
    let right = zip_bytes(&[("foo.jar", &inner_r), ("README.txt", b"prod")]);
    let mut session = FolderSession::start(memory_side(left), memory_side(right));
    session.enter("foo.jar", &no_files).unwrap();
    assert_eq!(session.summary().path_bar, "foo.jar!/");
    assert!(session.summary().can_go_up);
    let names: Vec<&str> = session.rows.iter().map(|r| r.name.as_str()).collect();
    assert_eq!(names, vec!["com"]);
    session.enter("com", &no_files).unwrap();
    assert_eq!(session.summary().path_bar, "foo.jar!/com/");
    let bytes = session
        .read_path("right", &path(&["com", "Hello.class"]), &no_files)
        .unwrap();
    assert_eq!(bytes, b"new");
    session.up().unwrap();
    session.up().unwrap();
    assert_eq!(session.summary().path_bar, "");
    assert!(!session.summary().can_go_up);
    let names: Vec<&str> = session.rows.iter().map(|r| r.name.as_str()).collect();
    assert_eq!(names, vec!["README.txt", "foo.jar"]);
    let window = session.window("diff", 0, 0);
    assert_eq!(window.total, 1);
    assert_eq!(window.rows.len(), 1);
    assert_eq!(window.rows[0].name, "foo.jar");
    assert!(session.row("foo.jar").is_some());
    assert!(session.row("bar.jar").is_none());
}

#[test]
fn store_counts_generations() {
    let mut store = FolderStore::default();
    let session = FolderSession::start(
        (Source::Memory(Vec::new()), FolderNode::dir()),
        (Source::Memory(Vec::new()), FolderNode::dir()),
    );
    store.install(session);
    assert!(store.session.is_some());
    assert_eq!(store.generation, 1);
    store.cancel();
    assert!(store.session.is_none());
    assert_eq!(store.generation, 2);
}

#[test]
fn a_corrupt_nested_archive_is_refused() {
    let left = zip_bytes(&[("bad.jar", b"not a zip"), ("a.txt", b"a")]);
    let right = zip_bytes(&[("bad.jar", b"also not a zip"), ("a.txt", b"a")]);
    let mut session = FolderSession::start(memory_side(left), memory_side(right));
    let err = session.children_at(&path(&["bad.jar"]), &no_files).unwrap_err();
    assert_eq!(err, "无法作为压缩包打开");
    let roots = session.children_at(&[], &no_files).unwrap();
    assert_eq!(roots.len(), 2);
    let err = session.enter("bad.jar", &no_files).unwrap_err();
    assert_eq!(err, "无法作为压缩包打开");
    assert!(session.summary().can_go_up);
    assert_eq!(session.stack.len(), 1);
}

#[test]
fn reading_an_archive_keeps_its_bytes_for_reads_below_it() {
    let inner = zip_bytes(&[("x/y.txt", b"deep")]);
    let outer = zip_bytes(&[("in.jar", &inner)]);
    let mut session = FolderSession::start(
        memory_side(outer),
        (Source::Memory(Vec::new()), FolderNode::dir()),
    );
    assert!(session
        .read_path("left", &path(&["in.jar", "x", "y.txt"]), &no_files)
        .is_err());
    let rows = session.children_at(&path(&["in.jar", "x"]), &no_files).unwrap();
    assert_eq!(rows[0].name, "y.txt");
    assert_eq!(rows[0].status, FolderStatus::LeftOnly);
    assert_eq!(session.nested.len(), 1);
    assert_eq!(session.nested[0].0, "left:in.jar");
    let bytes = session
        .read_path("left", &path(&["in.jar", "x", "y.txt"]), &no_files)
        .unwrap();
    assert_eq!(bytes, b"deep");
}

#[test]
fn summary_counts_match_the_filtered_windows() {
    let mut left = FolderNode::dir();
    left.insert_file("a.txt", FolderKind::File, hash(1), 1);
    left.insert_file("b.txt", FolderKind::File, hash(2), 1);
    left.insert_file("c.txt", FolderKind::File, hash(3), 1);
    let mut right = FolderNode::dir();
    right.insert_file("a.txt", FolderKind::File, hash(1), 1);
    right.insert_file("b.txt", FolderKind::File, hash(9), 1);
    let session = FolderSession::start(
        (Source::Dir("L".to_string()), left),
        (Source::Dir("R".to_string()), right),
    );
    let summary = session.summary();
    assert_eq!(summary.row_count, session.window("all", 0, 1).total);
    assert_eq!(summary.equal, session.window("same", 0, 1).total);
    assert_eq!(summary.different, session.window("diff", 0, 1).total);
    assert_eq!((summary.row_count, summary.equal, summary.different), (3, 1, 2));
    assert!(!summary.can_go_up);
    assert_eq!(summary.path_bar, "");
}

#[test]
fn leaving_an_archive_restores_the_rows() {
    let inner_l = zip_bytes(&[("a.txt", b"1")]);
    let inner_r = zip_bytes(&[("a.txt", b"2")]);
    let left = zip_bytes(&[("x.jar", &inner_l), ("same.txt", b"s"), ("only-left.txt", b"l")]);
    let right = zip_bytes(&[("x.jar", &inner_r), ("same.txt", b"s")]);
    let mut session = FolderSession::start(memory_side(left), memory_side(right));
    let before: Vec<(String, FolderStatus)> =
        session.rows.iter().map(|r| (r.name.clone(), r.status)).collect();
    session.enter("x.jar", &no_files).unwrap();
    assert_eq!(session.summary().path_bar, "x.jar!/");
    session.up().unwrap();
    let after: Vec<(String, FolderStatus)> =
        session.rows.iter().map(|r| (r.name.clone(), r.status)).collect();
    assert_eq!(after, before);
}

#[test]
fn listing_an_archive_again_gives_the_same_rows() {
    let inner_l = zip_bytes(&[("a.txt", b"1"), ("b.txt", b"2")]);
    let inner_r = zip_bytes(&[("a.txt", b"1")]);
    let left = zip_bytes(&[("x.jar", &inner_l)]);
    let right = zip_bytes(&[("x.jar", &inner_r)]);
    let mut session = FolderSession::start(memory_side(left), memory_side(right));
    let first: Vec<(String, FolderStatus)> = session
        .children_at(&path(&["x.jar"]), &no_files)
        .unwrap()
        .iter()
        .map(|r| (r.name.clone(), r.status))
        .collect();
    let second: Vec<(String, FolderStatus)> = session
        .children_at(&path(&["x.jar"]), &no_files)
        .unwrap()
        .iter()
        .map(|r| (r.name.clone(), r.status))
        .collect();
    assert_eq!(first, second);
    assert_eq!(
        first,
        vec![
            ("a.txt".to_string(), FolderStatus::Equal),
            ("b.txt".to_string(), FolderStatus::LeftOnly)
        ]
    );
    assert!(session.prefix.is_empty());
}
