use composefs::image::{Directory, FileSystem, FsError, Inode, Leaf, LeafContent, Stat};

fn plain_stat(mode: u32) -> Stat {
    Stat { st_mode: mode, st_uid: 0, st_gid: 0, st_mtim_sec: 0, xattrs: Vec::new() }
}

fn inline_leaf(mode: u32, content: &[u8]) -> Leaf {
    Leaf { stat: plain_stat(mode), content: LeafContent::InlineFile(content.to_vec()) }
}

fn dump_string(fs: &FileSystem) -> String {
    let mut out = Vec::new();
    fs.dump(&mut out);
    String::from_utf8(out).unwrap()
}

#[test]
fn dump_with_hardlink() {
    let mut fs = FileSystem::new();
    fs.mkdir(b"/a", plain_stat(0o755)).unwrap();
    fs.insert(b"/a/f", inline_leaf(0o644, b"hi")).unwrap();
    fs.hardlink(b"/a/g", b"/a/f").unwrap();
    let expected = "\"/\" -> dir\n\"/a\" -> dir\n\"/a/f\" -> hard.\n\"g\" -> hard \"/a/f\"\n";
    assert_eq!(dump_string(&fs), expected);
    // dumping twice yields byte-identical output
    assert_eq!(dump_string(&fs), expected);
}

#[test]
fn mkdir_over_existing_preserves_entries() {
    let mut fs = FileSystem::new();
    fs.mkdir(b"/a", plain_stat(0o755)).unwrap();
    fs.insert(b"/a/f", inline_leaf(0o644, b"hi")).unwrap();
    fs.hardlink(b"/a/g", b"/a/f").unwrap();
    fs.mkdir(b"/a", plain_stat(0o700)).unwrap();
    let expected = "\"/\" -> dir\n\"/a\" -> dir\n\"/a/f\" -> hard.\n\"g\" -> hard \"/a/f\"\n";
    assert_eq!(dump_string(&fs), expected);
    match &fs.root.entries[0].inode {
        Inode::Directory(d) => assert_eq!(d.stat.st_mode, 0o700),
        Inode::Leaf(_) => panic!("expected a directory"),
    }
}

#[test]
fn mkdir_over_leaf_is_refused() {
    let mut fs = FileSystem::new();
    fs.insert(b"/f", inline_leaf(0o644, b"x")).unwrap();
    assert_eq!(fs.mkdir(b"/f", plain_stat(0o755)), Err(FsError::ParentNotDirectory));
}

#[test]
fn remove_is_idempotent() {
    let mut fs = FileSystem::new();
    fs.mkdir(b"/a", plain_stat(0o755)).unwrap();
    fs.insert(b"/a/f", inline_leaf(0o644, b"hi")).unwrap();
    fs.remove(b"/a/f").unwrap();
    let once = dump_string(&fs);
    fs.remove(b"/a/f").unwrap();
    assert_eq!(dump_string(&fs), once);
    assert_eq!(once, "\"/\" -> dir\n\"/a\" -> dir\n");
}

#[test]
fn dump_does_not_depend_on_insertion_order() {
    let mut a = FileSystem::new();
    a.insert(b"/x", inline_leaf(0o644, b"1")).unwrap();
    a.insert(b"/b", inline_leaf(0o644, b"2")).unwrap();
    let mut b = FileSystem::new();
    b.insert(b"/b", inline_leaf(0o644, b"2")).unwrap();
    b.insert(b"/x", inline_leaf(0o644, b"1")).unwrap();
    assert_eq!(dump_string(&a), dump_string(&b));
    assert_eq!(dump_string(&a), "\"/\" -> dir\n\"/b\" -> file\n\"/x\" -> file\n");
}

#[test]
fn walk_errors() {
    let mut fs = FileSystem::new();
    fs.insert(b"/f", inline_leaf(0o644, b"x")).unwrap();
    assert_eq!(
        fs.insert(b"/missing/child", inline_leaf(0o644, b"y")),
        Err(FsError::ParentMissing)
    );
    assert_eq!(fs.insert(b"/f/child", inline_leaf(0o644, b"y")), Err(FsError::ParentNotDirectory));
    assert_eq!(fs.hardlink(b"/g", b"/nope"), Err(FsError::LinkTargetMissing));
    fs.mkdir(b"/d", plain_stat(0o755)).unwrap();
    assert_eq!(fs.hardlink(b"/g", b"/d"), Err(FsError::LinkTargetIsDirectory));
}

#[test]
fn insert_replaces_existing_binding() {
    let mut fs = FileSystem::new();
    fs.insert(b"/f", inline_leaf(0o644, b"old")).unwrap();
    fs.insert(b"/f", inline_leaf(0o644, b"new")).unwrap();
    assert_eq!(dump_string(&fs), "\"/\" -> dir\n\"/f\" -> file\n");
}

#[test]
fn directory_entries_stay_sorted() {
    let mut fs = FileSystem::new();
    for name in [&b"/m"[..], b"/a", b"/z", b"/k"] {
        fs.insert(name, inline_leaf(0o644, b"x")).unwrap();
    }
    let names: Vec<&[u8]> = fs.root.entries.iter().map(|e| e.name.as_slice()).collect();
    assert_eq!(names, vec![&b"a"[..], b"k", b"m", b"z"]);
}

#[test]
fn directory_find_entry_reports_position() {
    let mut d = Directory { stat: plain_stat(0o755), entries: Vec::new() };
    d.insert(b"b", 0);
    d.insert(b"d", 1);
    assert_eq!(d.find_entry(b"b"), Ok(0));
    assert_eq!(d.find_entry(b"d"), Ok(1));
    assert_eq!(d.find_entry(b"a"), Err(0));
    assert_eq!(d.find_entry(b"c"), Err(1));
    assert_eq!(d.find_entry(b"e"), Err(2));
}
