use bundle_input::digest::hex_encode;
use bundle_input::paths::{split_components, strip_root};

#[test]
fn components_drop_empty_segments() {
    let c = split_components(&b"/a//b/c/".to_vec());
    assert_eq!(c, vec![b"a".to_vec(), b"b".to_vec(), b"c".to_vec()]);
    assert!(split_components(&Vec::new()).is_empty());
}

#[test]
fn strip_root_is_component_wise() {
    assert_eq!(strip_root(&b"sub/b.txt".to_vec(), &b"sub".to_vec()), Some(b"b.txt".to_vec()));
    assert_eq!(strip_root(&b"subx/b.txt".to_vec(), &b"sub".to_vec()), None);
    assert_eq!(strip_root(&b"a.txt".to_vec(), &b"sub".to_vec()), None);
    assert_eq!(strip_root(&b"/r/x//y/z".to_vec(), &b"/r/x/".to_vec()), Some(b"y/z".to_vec()));
    assert_eq!(strip_root(&b"a/b".to_vec(), &Vec::new()), Some(b"a/b".to_vec()));
    assert_eq!(strip_root(&b"/r".to_vec(), &b"/r".to_vec()), Some(Vec::new()));
}

#[test]
fn hex_encode_two_digits_per_byte() {
    assert_eq!(hex_encode(&vec![0x00, 0x0f, 0xa5, 0xff]), "000fa5ff");
    assert_eq!(hex_encode(&Vec::new()), "");
}
