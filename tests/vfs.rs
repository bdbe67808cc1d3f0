use ra_vfs::{default_filter, is_source_extension, RelPath, RootFilter, Vfs, VfsChange, VfsFile, VfsPath, VfsRoot, VfsTask};

fn abs(s: &str) -> VfsPath {
    VfsPath { parts: s.split('/').filter(|c| !c.is_empty()).map(String::from).collect() }
}

fn rel(s: &str) -> RelPath {
    RelPath { parts: s.split('/').filter(|c| !c.is_empty()).map(String::from).collect() }
}

fn parts(p: &VfsPath) -> String {
    format!("/{}", p.parts.join("/"))
}

fn rel_str(p: &RelPath) -> String {
    p.parts.join("/")
}

fn one_root(dir: &str) -> (Vfs, VfsRoot) {
    let (vfs, roots) = Vfs::new(vec![abs(dir)]);
    assert_eq!(roots.len(), 1);
    (vfs, roots[0])
}

#[test]
fn default_filter_accepts_rust_files_only() {
    assert!(default_filter(&rel("src/lib.rs"), false));
    assert!(default_filter(&rel("main.rs"), false));
    assert!(!default_filter(&rel("src/lib.txt"), false));
    assert!(!default_filter(&rel("src/rs"), false));
    assert!(!default_filter(&rel(".rs"), false));
    assert!(!default_filter(&rel(""), false));
}

#[test]
fn default_filter_skips_reserved_directories() {
    assert!(default_filter(&rel("src"), true));
    assert!(default_filter(&rel(""), true));
    assert!(!default_filter(&rel("target"), true));
    assert!(default_filter(&rel("crates/target"), true));
    assert!(!default_filter(&rel("a/.git"), true));
    assert!(!default_filter(&rel("web/node_modules/x"), true));
}

#[test]
fn can_contain_gives_the_relative_path() {
    let f = RootFilter::new(abs("/a"), vec![abs("/a/b")]);
    let r = f.can_contain(&abs("/a/x/y.rs"), false).unwrap();
    assert_eq!(rel_str(&r), "x/y.rs");
    assert!(f.can_contain(&abs("/c/y.rs"), false).is_none());
    assert!(f.can_contain(&abs("/a/y.txt"), false).is_none());
    // a nested root is excluded only from ownership, not from containment
    assert!(f.can_contain(&abs("/a/b/y.rs"), false).is_some());
    assert!(f.claim(&abs("/a/b/y.rs"), false).is_none());
}

#[test]
fn entry_filter_does_not_enter_nested_roots() {
    let f = RootFilter::new(abs("/a"), vec![abs("/a/b")]);
    assert!(!f.entry_filter(&abs("/a/b"), true));
    assert!(f.entry_filter(&abs("/a/c"), true));
    assert!(!f.entry_filter(&abs("/a/target"), true));
    assert!(f.entry_filter(&abs("/a/c/m.rs"), false));
    assert!(!f.entry_filter(&abs("/a/c/m.md"), false));
}

fn owner_of_loaded(dirs: Vec<&str>, file: &str) -> String {
    let (mut vfs, _roots) = Vfs::new(dirs.into_iter().map(abs).collect());
    let f = vfs.load(&abs(file), Some(String::from("x"))).unwrap();
    let changes = vfs.commit_changes();
    assert_eq!(changes.len(), 1);
    match &changes[0] {
        VfsChange::AddFile { root, file, path, .. } => {
            assert_eq!(*file, f);
            assert_eq!(parts(&vfs.file2path(f)), file_path_of(&vfs, *root, path));
            parts(&vfs.root2path(*root))
        }
        other => panic!("unexpected change {:?}", other),
    }
}

fn file_path_of(vfs: &Vfs, root: VfsRoot, path: &RelPath) -> String {
    parts(&path.to_path(&vfs.root2path(root)))
}

#[test]
fn nested_root_precedence() {
    assert_eq!(owner_of_loaded(vec!["/a", "/a/b"], "/a/b/f.rs"), "/a/b");
    assert_eq!(owner_of_loaded(vec!["/a/b", "/a"], "/a/b/f.rs"), "/a/b");
    assert_eq!(owner_of_loaded(vec!["/a", "/a/b"], "/a/c/f.rs"), "/a");
    assert_eq!(owner_of_loaded(vec!["/a/b", "/a"], "/a/f.rs"), "/a");
}

#[test]
fn root_handles_follow_given_order() {
    let (vfs, roots) = Vfs::new(vec![abs("/x"), abs("/y/z")]);
    assert_eq!(roots, vec![VfsRoot(0), VfsRoot(1)]);
    assert_eq!(parts(&vfs.root2path(roots[1])), "/y/z");
    let f = vfs.root_filter(roots[0]);
    assert_eq!(parts(&f.root), "/x");
    assert!(f.excluded_dirs.is_empty());
}

#[test]
fn path_outside_roots_is_no_file() {
    let (mut vfs, _root) = one_root("/a");
    assert_eq!(vfs.load(&abs("/b/f.rs"), Some(String::from("t"))), None);
    assert_eq!(vfs.add_file_overlay(&abs("/b/f.rs"), String::from("t")), None);
    assert_eq!(vfs.path2file(&abs("/b/f.rs")), None);
    assert!(vfs.commit_changes().is_empty());
}

#[test]
fn load_reads_once_and_failed_read_is_empty() {
    let (mut vfs, _root) = one_root("/a");
    let f = vfs.load(&abs("/a/f.rs"), None).unwrap();
    assert_eq!(vfs.file_text(f), "");
    assert_eq!(vfs.load(&abs("/a/f.rs"), Some(String::from("new"))), Some(f));
    assert_eq!(vfs.file_text(f), "");
    assert_eq!(vfs.commit_changes().len(), 1);
    assert_eq!(vfs.file_for_path(&abs("/a/f.rs")), Some(f));
    assert_eq!(parts(&vfs.file2path(f)), "/a/f.rs");
}

#[test]
fn overlay_precedence() {
    let (mut vfs, root) = one_root("/a");
    let f = vfs.add_file_overlay(&abs("/a/f.rs"), String::from("X")).unwrap();
    assert!(vfs.is_overlayed(f));
    vfs.commit_changes();
    vfs.handle_task(VfsTask::ChangeSingleFile { root, path: rel("f.rs"), text: String::from("Y") });
    assert_eq!(vfs.file_text(f), "X");
    vfs.handle_task(VfsTask::RemoveSingleFile { root, path: rel("f.rs") });
    assert_eq!(vfs.file_text(f), "X");
    assert!(vfs.is_live(f));
    assert!(vfs.commit_changes().is_empty());
}

#[test]
fn overlay_change_always_applies() {
    let (mut vfs, _root) = one_root("/a");
    let f = vfs.load(&abs("/a/f.rs"), Some(String::from("disk"))).unwrap();
    assert!(!vfs.is_overlayed(f));
    vfs.change_file_overlay(&abs("/a/f.rs"), String::from("edit"));
    assert_eq!(vfs.file_text(f), "edit");
    assert!(vfs.is_overlayed(f));
    let changes = vfs.commit_changes();
    assert_eq!(changes.len(), 2);
    match &changes[1] {
        VfsChange::ChangeFile { file, text } => {
            assert_eq!(*file, f);
            assert_eq!(text, "edit");
        }
        other => panic!("unexpected change {:?}", other),
    }
}

#[test]
fn overlay_remove_reverts_to_disk() {
    let (mut vfs, _root) = one_root("/a");
    let f = vfs.add_file_overlay(&abs("/a/f.rs"), String::from("X")).unwrap();
    vfs.commit_changes();
    let r = vfs.remove_file_overlay(&abs("/a/f.rs"), Some(String::from("Y")));
    assert_eq!(r, Some(f));
    assert_eq!(vfs.file_text(f), "Y");
    assert!(!vfs.is_overlayed(f));
    assert!(vfs.is_live(f));
    let changes = vfs.commit_changes();
    assert_eq!(changes.len(), 1);
    match &changes[0] {
        VfsChange::ChangeFile { file, text } => {
            assert_eq!(*file, f);
            assert_eq!(text, "Y");
        }
        other => panic!("unexpected change {:?}", other),
    }
}

#[test]
fn overlay_remove_without_disk_file_removes() {
    let (mut vfs, root) = one_root("/a");
    let f = vfs.add_file_overlay(&abs("/a/f.rs"), String::from("X")).unwrap();
    vfs.commit_changes();
    assert_eq!(vfs.remove_file_overlay(&abs("/a/f.rs"), None), Some(f));
    assert!(!vfs.is_live(f));
    assert_eq!(vfs.path2file(&abs("/a/f.rs")), None);
    let changes = vfs.commit_changes();
    match &changes[..] {
        [VfsChange::RemoveFile { root: r, file, path }] => {
            assert_eq!(*r, root);
            assert_eq!(*file, f);
            assert_eq!(rel_str(path), "f.rs");
        }
        other => panic!("unexpected changes {:?}", other),
    }
}

#[test]
fn bulk_add_non_clobber() {
    let (mut vfs, root) = one_root("/a");
    let f = vfs.load(&abs("/a/f.rs"), Some(String::from("Z"))).unwrap();
    vfs.commit_changes();
    vfs.handle_task(VfsTask::BulkLoadRoot {
        root,
        files: vec![(rel("f.rs"), String::from("W")), (rel("g.rs"), String::from("G"))],
    });
    assert_eq!(vfs.file_text(f), "Z");
    let g = vfs.path2file(&abs("/a/g.rs")).unwrap();
    assert_ne!(g, f);
    assert_eq!(vfs.file_text(g), "G");
    let changes = vfs.commit_changes();
    match &changes[..] {
        [VfsChange::AddRoot { root: r, files }] => {
            assert_eq!(*r, root);
            assert_eq!(files.len(), 2);
            assert_eq!(files[0].0, f);
            assert_eq!(rel_str(&files[0].1), "f.rs");
            assert_eq!(files[0].2, "Z");
            assert_eq!(files[1].0, g);
            assert_eq!(files[1].2, "G");
        }
        other => panic!("unexpected changes {:?}", other),
    }
}

#[test]
fn bulk_add_with_repeated_path_keeps_one_file() {
    let (mut vfs, root) = one_root("/a");
    vfs.handle_task(VfsTask::BulkLoadRoot {
        root,
        files: vec![(rel("f.rs"), String::from("1")), (rel("f.rs"), String::from("2"))],
    });
    let f = vfs.path2file(&abs("/a/f.rs")).unwrap();
    assert_eq!(f, VfsFile(0));
    assert_eq!(vfs.file_text(f), "1");
    assert_eq!(vfs.files_len(), 1);
    let changes = vfs.commit_changes();
    match &changes[..] {
        [VfsChange::AddRoot { root: r, files }] => {
            assert_eq!(*r, root);
            assert_eq!(files.len(), 1);
            assert_eq!(files[0].0, f);
            assert_eq!(rel_str(&files[0].1), "f.rs");
            assert_eq!(files[0].2, "1");
        }
        other => panic!("unexpected changes {:?}", other),
    }
}

#[test]
fn source_extension_is_rs() {
    assert!(is_source_extension(&Some(String::from("rs"))));
    assert!(!is_source_extension(&Some(String::from("r"))));
    assert!(!is_source_extension(&Some(String::from("rss"))));
    assert!(!is_source_extension(&None));
}

#[test]
fn registration_order_does_not_change_owner_of_excluded_dir() {
    // /a/b/target is rejected by /a/b and excluded from /a: no root owns it
    for dirs in [vec!["/a", "/a/b"], vec!["/a/b", "/a"]] {
        let (vfs, _roots) = Vfs::new(dirs.into_iter().map(abs).collect());
        for i in 0..2 {
            let f = vfs.root_filter(VfsRoot(i));
            assert!(f.claim(&abs("/a/b/target"), true).is_none());
        }
        assert_eq!(vfs.path2file(&abs("/a/b/target")), None);
    }
}

#[test]
fn commit_drains_exactly_once() {
    let (mut vfs, root) = one_root("/a");
    let f = vfs.load(&abs("/a/f.rs"), Some(String::from("1"))).unwrap();
    vfs.handle_task(VfsTask::ChangeSingleFile { root, path: rel("f.rs"), text: String::from("2") });
    vfs.handle_task(VfsTask::AddSingleFile { root, path: rel("g.rs"), text: String::from("3") });
    let changes = vfs.commit_changes();
    assert_eq!(changes.len(), 3);
    assert!(matches!(&changes[0], VfsChange::AddFile { file, .. } if *file == f));
    assert!(matches!(&changes[1], VfsChange::ChangeFile { file, text } if *file == f && text == "2"));
    assert!(matches!(&changes[2], VfsChange::AddFile { text, .. } if text == "3"));
    assert!(vfs.commit_changes().is_empty());
}

#[test]
fn idempotent_single_add() {
    let (mut vfs, root) = one_root("/a");
    vfs.handle_task(VfsTask::AddSingleFile { root, path: rel("f.rs"), text: String::from("A") });
    vfs.handle_task(VfsTask::AddSingleFile { root, path: rel("f.rs"), text: String::from("B") });
    let f = vfs.path2file(&abs("/a/f.rs")).unwrap();
    assert_eq!(vfs.file_text(f), "A");
    assert_eq!(vfs.commit_changes().len(), 1);
}

#[test]
fn single_change_of_unknown_file_adds_it() {
    let (mut vfs, root) = one_root("/a");
    vfs.handle_task(VfsTask::ChangeSingleFile { root, path: rel("f.rs"), text: String::from("C") });
    let f = vfs.path2file(&abs("/a/f.rs")).unwrap();
    assert_eq!(vfs.file_text(f), "C");
    assert!(matches!(&vfs.commit_changes()[..], [VfsChange::AddFile { .. }]));
}

#[test]
fn handle_stability_across_remove_and_readd() {
    let (mut vfs, root) = one_root("/a");
    let f = vfs.load(&abs("/a/f.rs"), Some(String::from("1"))).unwrap();
    vfs.handle_task(VfsTask::RemoveSingleFile { root, path: rel("f.rs") });
    assert!(!vfs.is_live(f));
    assert_eq!(vfs.file_text(f), "");
    assert_eq!(parts(&vfs.file2path(f)), "/a/f.rs");
    assert_eq!(vfs.path2file(&abs("/a/f.rs")), None);
    vfs.handle_task(VfsTask::AddSingleFile { root, path: rel("f.rs"), text: String::from("2") });
    assert_eq!(vfs.path2file(&abs("/a/f.rs")), Some(f));
    assert_eq!(vfs.file_text(f), "2");
    assert_eq!(vfs.load(&abs("/a/g.rs"), None), Some(VfsFile(1)));
}
