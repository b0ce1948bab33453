use bundle_input::error::{BundleError, DefinitelySame};

#[test]
fn test_errmsg_macro() {
    let err: anyhow::Error = anyhow::Error::msg(format!("test error {}", 42));
    assert_eq!(err.to_string(), "test error 42");
}

#[test]
fn test_def_same_option() {
    let a = Some(String::from("A"));
    let b = Some(String::from("A"));

    assert!(a.definitely_same(&b));
    assert!(b.definitely_same(&a));

    let b = Some(String::from("B"));
    assert!(!a.definitely_same(&b));

    let b: Option<String> = None;
    let c: Option<String> = None;
    assert!(!a.definitely_same(&b));
    assert!(b.definitely_same(&c));
}

#[test]
fn def_same_result_compares_the_same_side() {
    let ok: Result<String, BundleError> = Ok(String::from("a.txt"));
    let ok2: Result<String, BundleError> = Ok(String::from("a.txt"));
    let err: Result<String, BundleError> = Err(BundleError::NonUtf8Path);
    let err2: Result<String, BundleError> = Err(BundleError::IoFailure);
    assert!(ok.definitely_same(&ok2));
    assert!(!ok.definitely_same(&err));
    assert!(!err.definitely_same(&ok));
    assert!(err.definitely_same(&err));
    assert!(!err.definitely_same(&err2));
}

#[test]
fn error_messages_and_terminality() {
    assert_eq!(BundleError::NonUtf8Path.message(), "invalid non-UTF8 path");
    assert_eq!(BundleError::ArchiveDecodeFailure.message(), "failed to read tar entry");
    assert_eq!(BundleError::PathResolution.message(), "failed to canonicalize bundle path");
    assert!(BundleError::ArchiveDecodeFailure.is_terminal());
    assert!(BundleError::PathResolution.is_terminal());
    assert!(!BundleError::NonUtf8Path.is_terminal());
    assert!(!BundleError::PathEscape.is_terminal());
}
