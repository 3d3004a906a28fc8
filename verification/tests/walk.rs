use splice_core::files::places::Place;
use splice_core::files::records::{EntryId, EntryKind, LocalSelection, SelectedRoot};
use splice_core::files::selection::Dropped;
use splice_core::files::walk::{
    check_descriptor, check_root, find_anchor, fold, verify, verify_link, Anchor, FileType,
    Handles, SourceEntry, Version, Walk, WalkFault, MAX_TOTAL_BYTES,
};

fn version(ino: u64, len: u64) -> Version {
    Version {
        dev: 1,
        ino,
        len,
        modified_seconds: 1_600_000_123,
        modified_nanos: 123_456_789,
        changed_seconds: 0,
        changed_nanos: 0,
        mode: 0o104751,
    }
}

fn place(name: &str) -> Place {
    Place { absolute: false, names: vec![name.into()] }
}

fn add(walk: &mut Walk, name: &str, kind: FileType, of: Version) -> Result<EntryId, WalkFault> {
    walk.enter(0, place(name), name.into(), kind, of, "target".into(), false)
}

#[test]
fn a_tree_is_taken_down_in_order() {
    let mut walk = Walk::new();
    let root = add(&mut walk, "root", FileType::Directory, version(1, 0)).unwrap();
    assert_eq!(walk.listed(root, version(1, 0)), Ok(()));
    let file = add(&mut walk, "script", FileType::File, version(2, 10)).unwrap();
    assert_eq!(walk.leave(file, version(2, 10)), Ok(()));
    let nested = add(&mut walk, "nested", FileType::Directory, version(3, 0)).unwrap();
    let link = add(&mut walk, "link", FileType::Link, version(4, 6)).unwrap();
    walk.leave(link, version(4, 6)).unwrap();
    walk.leave(nested, version(3, 0)).unwrap();
    walk.leave(root, version(1, 0)).unwrap();
    assert_eq!(walk.root_settled(root, version(1, 0)), Ok(()));
    assert_eq!(walk.root_settled(root, version(9, 0)), Err(WalkFault::RootChanged));
    let (manifest, sources) = walk.finish(7);
    assert_eq!(manifest.generation, 7);
    assert_eq!(manifest.total_bytes, 10);
    assert_eq!(manifest.entries.len(), 4);
    assert_eq!(manifest.entries[1].mode, 0o751);
    assert_eq!(manifest.entries[1].modified.nanos, 123_456_789);
    assert_eq!(manifest.entries[3].parent, Some(nested));
    assert_eq!(manifest.entries[3].mode, 0o777);
    assert_eq!(manifest.entries[3].kind, EntryKind::Symlink { target: "target".into() });
    assert_eq!(sources[1].version, version(2, 10));
}

#[test]
fn names_that_differ_only_in_case_or_composition_collide() {
    assert_eq!(fold("\u{c4}B"), fold("a\u{308}b"));
    assert_ne!(fold("a"), fold("b"));
    let mut walk = Walk::new();
    add(&mut walk, "Root", FileType::File, version(1, 1)).unwrap();
    assert_eq!(
        add(&mut walk, "rOOT", FileType::File, version(2, 1)),
        Err(WalkFault::RootCollision)
    );
    add(&mut walk, "dir", FileType::Directory, version(3, 0)).unwrap();
    add(&mut walk, "root", FileType::File, version(4, 1)).unwrap();
    add(&mut walk, "\u{e9}", FileType::File, version(5, 1)).unwrap();
    assert_eq!(
        add(&mut walk, "E\u{301}", FileType::File, version(6, 1)),
        Err(WalkFault::Collision)
    );
}

#[test]
fn what_cannot_be_offered_is_refused() {
    let mut walk = Walk::new();
    let refused = |walk: &mut Walk, name: &str, kind, of| add(walk, name, kind, of).unwrap_err();
    assert_eq!(
        walk.enter(0, place("a"), "a".into(), FileType::File, version(1, 1), "".into(), true),
        Err(WalkFault::Cancelled)
    );
    assert_eq!(refused(&mut walk, "a/b", FileType::File, version(1, 1)), WalkFault::Name);
    assert_eq!(refused(&mut walk, "..", FileType::File, version(1, 1)), WalkFault::Name);
    assert_eq!(refused(&mut walk, "fifo", FileType::Special, version(1, 0)), WalkFault::Special);
    assert_eq!(refused(&mut walk, "link", FileType::Link, version(1, 0)), WalkFault::LinkRoot);
    let large = version(1, MAX_TOTAL_BYTES + 1);
    assert_eq!(refused(&mut walk, "large", FileType::File, large), WalkFault::TooLarge);
    add(&mut walk, "small", FileType::File, version(1, 1)).unwrap();
    let huge = version(1, u64::MAX);
    assert_eq!(refused(&mut walk, "huge", FileType::File, huge), WalkFault::Overflow);
    let odd = Version { modified_nanos: -1, ..version(1, 1) };
    assert_eq!(refused(&mut walk, "odd", FileType::File, odd), WalkFault::Time);
    let mut deep = Walk::new();
    for n in 0..32u64 {
        add(&mut deep, "d", FileType::Directory, version(n, 0)).unwrap();
    }
    assert_eq!(refused(&mut deep, "d", FileType::Directory, version(40, 0)), WalkFault::Limits);
    let mut many = Walk::new();
    for n in 0..4096u64 {
        add(&mut many, &format!("f{n}"), FileType::File, version(n, 0)).unwrap();
    }
    assert_eq!(many.room(), 0);
    assert_eq!(refused(&mut many, "last", FileType::File, version(1, 0)), WalkFault::Limits);
    assert_eq!(WalkFault::Limits.text(), "selection exceeds manifest limits");
}

#[test]
fn changes_during_enumeration_are_noticed() {
    let mut walk = Walk::new();
    let root = add(&mut walk, "root", FileType::Directory, version(1, 0)).unwrap();
    assert_eq!(walk.listed(root, version(2, 0)), Err(WalkFault::DirectoryChanged));
    assert_eq!(walk.leave(root, version(2, 0)), Err(WalkFault::TreeChanged));
    assert_eq!(walk.levels.len(), 1);
    assert_eq!(walk.leave(root, version(1, 0)), Ok(()));
    assert_eq!(walk.levels.len(), 0);
}

#[test]
fn a_source_that_was_replaced_or_changed_is_refused() {
    let sources = vec![SourceEntry { root: 0, path: place("file"), version: version(1, 8) }];
    let known = version(1, 8);
    let changed = Version { changed_nanos: 1, ..known };
    assert_eq!(verify(&sources, EntryId(0), known, known), Ok(()));
    assert_eq!(verify(&sources, EntryId(0), changed, known), Err(WalkFault::VersionChanged));
    assert_eq!(verify(&sources, EntryId(0), known, changed), Err(WalkFault::PathChanged));
    assert_eq!(verify(&sources, EntryId(1), known, known), Err(WalkFault::UnknownEntry));
    let a = "a".to_string();
    let b = "b".to_string();
    assert_eq!(verify_link(&sources, EntryId(0), &a, known, &a, known), Ok(()));
    assert_eq!(
        verify_link(&sources, EntryId(0), &a, known, &b, known),
        Err(WalkFault::LinkChanged)
    );
    assert_eq!(
        verify_link(&sources, EntryId(0), &a, changed, &a, known),
        Err(WalkFault::LinkChanged)
    );
    assert_eq!(
        verify_link(&sources, EntryId(3), &a, known, &a, known),
        Err(WalkFault::UnknownEntry)
    );
}

#[test]
fn roots_are_checked_and_directories_held_open_are_counted() {
    assert_eq!(check_descriptor(false, true, false), Ok(()));
    assert_eq!(check_descriptor(true, true, false), Err(WalkFault::WriteOnly));
    assert_eq!(check_descriptor(false, true, true), Err(WalkFault::Unreadable));
    assert_eq!(check_descriptor(false, false, true), Ok(()));
    let absolute = Place { absolute: true, names: vec!["a".into()] };
    assert_eq!(check_root(&absolute, false), Ok(()));
    assert_eq!(check_root(&absolute, true), Err(WalkFault::LinkChosen));
    assert_eq!(check_root(&place("a"), false), Err(WalkFault::Relative));
    let anchors = vec![Anchor { place: place("a"), root: 3 }, Anchor { place: place("b"), root: 4 }];
    assert_eq!(find_anchor(&anchors, &place("b")), Some(4));
    assert_eq!(find_anchor(&anchors, &place("c")), None);
    let mut handles = Handles { used: 0 };
    for _ in 0..64 {
        handles.acquire().unwrap();
    }
    assert_eq!(handles.acquire(), Err(WalkFault::Handles));
    handles.release();
    assert_eq!(handles.acquire(), Ok(()));
}

fn dropped(name: &str) -> Dropped {
    Dropped {
        path: format!("/tmp/{name}"),
        name: Some(name.into()),
        absolute: true,
        file: None,
        plain: Ok(true),
    }
}

#[test]
fn what_is_dropped_is_selected_by_its_open_file() {
    let open = Dropped { file: Some(9), absolute: false, ..dropped("doc") };
    let selection = LocalSelection::from_descriptors(vec![dropped("a"), open]).unwrap();
    assert_eq!(
        selection.roots,
        vec![
            SelectedRoot::Path("/tmp/a".into()),
            SelectedRoot::Open { name: "doc".into(), file: 9 }
        ]
    );
    assert_eq!(selection.validate(), Ok(()));
    let refusal = |roots: Vec<SelectedRoot>| {
        LocalSelection { roots, access: None }.validate().unwrap_err().text()
    };
    let named = |name: &str| SelectedRoot::Open { name: name.into(), file: 1 };
    let path = |path: &str| SelectedRoot::Path(path.into());
    assert_eq!(refusal(vec![]), "invalid selection root count");
    assert_eq!(refusal((0..129).map(|_| path("/a")).collect()), "invalid selection root count");
    assert_eq!(refusal(vec![path("/a"), path("a"), named("..")]), "invalid local source path");
    assert_eq!(refusal(vec![named("a"), named(".."), path("a")]), "invalid selected descriptor name");
    let refused = |items: Vec<Dropped>| LocalSelection::from_descriptors(items).unwrap_err();
    assert_eq!(refused(vec![]), "the selection contains no local files");
    let many = (0..129).map(|n| dropped(&format!("{n}"))).collect();
    assert_eq!(refused(many), "the selection has more than 128 items");
    let nameless = Dropped { name: None, ..dropped("a") };
    assert_eq!(refused(vec![nameless]), "/tmp/a has an unsupported name");
    let relative = Dropped { absolute: false, ..dropped("a") };
    assert_eq!(refused(vec![relative]), "/tmp/a is not an absolute path");
    let unknown = Dropped { plain: Err("denied".into()), ..dropped("a") };
    assert_eq!(refused(vec![unknown]), "/tmp/a: denied");
    let closed = Dropped { plain: Err("denied".into()), file: Some(1), ..dropped("a") };
    assert_eq!(refused(vec![closed]), "a: denied");
    let special = Dropped { plain: Ok(false), ..dropped("a") };
    assert_eq!(refused(vec![special]), "/tmp/a is not a regular file or directory");
}
