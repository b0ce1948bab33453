use std::collections::BTreeSet;

use bundle_input::dir::{DirBundleInput, WalkStep};
use bundle_input::entry::EntryKind;
use bundle_input::error::BundleError;

fn found(kind: EntryKind, p: &str) -> WalkStep {
    WalkStep::Found { kind, canonical: Some(p.as_bytes().to_vec()) }
}

fn sample_walk() -> Vec<WalkStep> {
    vec![
        found(EntryKind::Directory, "/data/bundle"),
        found(EntryKind::Regular, "/data/bundle/a.txt"),
        found(EntryKind::Directory, "/data/bundle/sub"),
        found(EntryKind::Regular, "/data/bundle/sub/b.txt"),
        found(EntryKind::Directory, "/data/bundle/sub/deep"),
        found(EntryKind::Regular, "/data/bundle/sub/deep/c.tex"),
        found(EntryKind::Symlink, "/data/bundle/link"),
        found(EntryKind::Other, "/data/bundle/fifo"),
    ]
}

fn open_root() -> DirBundleInput {
    DirBundleInput::new(Some(b"/data/bundle".to_vec())).unwrap()
}

#[test]
fn nonexistent_root_fails_with_path_resolution() {
    assert_eq!(DirBundleInput::new(None).err(), Some(BundleError::PathResolution));
}

#[test]
fn regular_files_only_with_relative_paths() {
    let input = open_root();
    let items = input.iter_files(&sample_walk());
    let paths: Vec<String> = items.into_iter().map(|x| x.unwrap()).collect();
    assert_eq!(paths, vec!["a.txt", "sub/b.txt", "sub/deep/c.tex"]);
    let set: BTreeSet<&String> = paths.iter().collect();
    assert_eq!(set.len(), paths.len());
}

#[test]
fn yielded_paths_rejoin_onto_root() {
    let input = open_root();
    for item in input.iter_files(&sample_walk()) {
        let rel = item.unwrap();
        let mut full = String::from_utf8(input.dir().clone()).unwrap();
        full.push('/');
        full.push_str(&rel);
        assert!(sample_walk().iter().any(|s| matches!(s,
            WalkStep::Found { kind: EntryKind::Regular, canonical: Some(p) } if p == full.as_bytes())));
    }
}

#[test]
fn rewalk_in_other_order_gives_same_set() {
    let first: BTreeSet<String> =
        open_root().iter_files(&sample_walk()).into_iter().map(|x| x.unwrap()).collect();
    let mut walk = sample_walk();
    walk.reverse();
    let second: BTreeSet<String> =
        open_root().iter_files(&walk).into_iter().map(|x| x.unwrap()).collect();
    assert_eq!(first, second);
}

#[test]
fn per_item_failures_do_not_stop_the_walk() {
    let input = open_root();
    let walk = vec![
        WalkStep::Failed,
        WalkStep::Found { kind: EntryKind::Regular, canonical: None },
        found(EntryKind::Regular, "/etc/passwd"),
        WalkStep::Found { kind: EntryKind::Regular, canonical: Some(b"/data/bundle/\xff.txt".to_vec()) },
        found(EntryKind::Regular, "/data/bundle/ok.txt"),
    ];
    let items = input.iter_files(&walk);
    assert_eq!(
        items,
        vec![
            Err(BundleError::IoFailure),
            Err(BundleError::IoFailure),
            Err(BundleError::PathEscape),
            Err(BundleError::NonUtf8Path),
            Ok(String::from("ok.txt")),
        ]
    );
}

#[test]
fn entry_item_skips_directories() {
    let input = open_root();
    assert_eq!(input.entry_item(&found(EntryKind::Directory, "/data/bundle/sub")), None);
    assert_eq!(
        input.entry_item(&found(EntryKind::Regular, "/data/bundle/sub/b.txt")),
        Some(Ok(String::from("sub/b.txt")))
    );
}
