use bundle_input::archive::{ArchiveStep, TarBundleInput};
use bundle_input::entry::EntryKind;
use bundle_input::error::BundleError;

fn add_file(b: &mut tar::Builder<Vec<u8>>, name: &[u8], data: &[u8]) {
    let mut h = tar::Header::new_old();
    h.as_old_mut().name[..name.len()].copy_from_slice(name);
    h.set_size(data.len() as u64);
    h.set_entry_type(tar::EntryType::Regular);
    h.set_mode(0o644);
    h.set_cksum();
    b.append(&h, data).unwrap();
}

fn add_dir(b: &mut tar::Builder<Vec<u8>>, name: &[u8]) {
    let mut h = tar::Header::new_old();
    h.as_old_mut().name[..name.len()].copy_from_slice(name);
    h.set_size(0);
    h.set_entry_type(tar::EntryType::Directory);
    h.set_mode(0o755);
    h.set_cksum();
    b.append(&h, &[][..]).unwrap();
}

fn sample_archive() -> Vec<u8> {
    let mut b = tar::Builder::new(Vec::new());
    add_file(&mut b, b"a.txt", b"alpha");
    add_dir(&mut b, b"sub/");
    add_file(&mut b, b"sub/b.txt", b"beta");
    b.into_inner().unwrap()
}

fn kind_of(t: tar::EntryType) -> EntryKind {
    if t.is_file() {
        EntryKind::Regular
    } else if t.is_dir() {
        EntryKind::Directory
    } else if t.is_symlink() {
        EntryKind::Symlink
    } else {
        EntryKind::Other
    }
}

fn decode(bytes: &[u8]) -> Vec<ArchiveStep> {
    let mut archive = tar::Archive::new(bytes);
    let mut steps = Vec::new();
    for e in archive.entries().unwrap() {
        match e {
            Ok(e) => steps.push(ArchiveStep::Entry {
                kind: kind_of(e.header().entry_type()),
                path: Some(e.path_bytes().into_owned()),
            }),
            Err(_) => {
                steps.push(ArchiveStep::DecodeFailed);
                break;
            }
        }
    }
    steps
}

fn paths(root: Option<&[u8]>, bytes: &[u8]) -> Vec<Result<String, BundleError>> {
    let input = TarBundleInput::new(Ok(bytes.to_vec()), root.map(|r| r.to_vec())).unwrap();
    input.iter_files(&decode(bytes))
}

#[test]
fn archive_without_root_yields_files_only() {
    assert_eq!(
        paths(None, &sample_archive()),
        vec![Ok(String::from("a.txt")), Ok(String::from("sub/b.txt"))]
    );
}

#[test]
fn archive_with_root_yields_files_under_it() {
    assert_eq!(paths(Some(b"sub"), &sample_archive()), vec![Ok(String::from("b.txt"))]);
}

#[test]
fn hash_is_stable_and_sensitive_to_each_byte() {
    let bytes = sample_archive();
    let a = TarBundleInput::new(Ok(bytes.clone()), None).unwrap();
    let b = TarBundleInput::new(Ok(bytes.clone()), None).unwrap();
    assert_eq!(a.hash(), b.hash());
    assert_eq!(a.hash().len(), 64);
    let mut flipped = bytes.clone();
    flipped[0] ^= 1;
    let c = TarBundleInput::new(Ok(flipped), None).unwrap();
    assert_ne!(a.hash(), c.hash());
}

#[test]
fn hash_of_known_contents() {
    let input = TarBundleInput::new(Ok(b"abc".to_vec()), None).unwrap();
    assert_eq!(input.hash(), "ba7816bf8f01cfea414140de5dae2223b00361a396177a9cb410ff61f20015ad");
    let empty = TarBundleInput::new(Ok(Vec::new()), None).unwrap();
    assert_eq!(empty.hash(), "e3b0c44298fc1c149afbf4c8996fb92427ae41e4649b934ca495991b7852b855");
}

#[test]
fn open_failure_is_passed_on() {
    assert!(matches!(
        TarBundleInput::new(Err(BundleError::PathResolution), None),
        Err(BundleError::PathResolution)
    ));
}

#[test]
fn non_utf8_entry_does_not_halt_the_pass() {
    let mut b = tar::Builder::new(Vec::new());
    add_file(&mut b, b"a.txt", b"alpha");
    add_file(&mut b, b"bad\xff.txt", b"x");
    add_file(&mut b, b"c.txt", b"gamma");
    let bytes = b.into_inner().unwrap();
    assert_eq!(
        paths(None, &bytes),
        vec![
            Ok(String::from("a.txt")),
            Err(BundleError::NonUtf8Path),
            Ok(String::from("c.txt")),
        ]
    );
}

#[test]
fn decode_failure_ends_the_pass() {
    let input = TarBundleInput::new(Ok(Vec::new()), None).unwrap();
    let steps = vec![
        ArchiveStep::Entry { kind: EntryKind::Regular, path: Some(b"a.txt".to_vec()) },
        ArchiveStep::Entry { kind: EntryKind::Regular, path: None },
        ArchiveStep::DecodeFailed,
        ArchiveStep::Entry { kind: EntryKind::Regular, path: Some(b"late.txt".to_vec()) },
    ];
    assert_eq!(
        input.iter_files(&steps),
        vec![
            Ok(String::from("a.txt")),
            Err(BundleError::InvalidArchivePath),
            Err(BundleError::ArchiveDecodeFailure),
        ]
    );
}
