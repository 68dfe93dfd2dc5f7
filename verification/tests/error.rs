use std::fmt::Error as FmtError;
use tree_ds::error::Error;

#[test]
fn test_error_fmt() {
    let err = Error::InvalidOperation("Invalid operation".to_string());
    assert_eq!(err.to_string(), "Error: Invalid operation");
}

#[test]
fn test_error_fmt_root_node_already_present() {
    let err = Error::RootNodeAlreadyPresent;
    assert_eq!(
        err.to_string(),
        "Error: Root node already present in the tree. You cannot add another root node."
    );
}

#[test]
fn test_error_from_fmt_error() {
    let err = Error::FmtError(FmtError);
    assert_eq!(Error::from(FmtError), err);
}

#[test]
fn test_error_fmt_node_not_found() {
    let err = Error::NodeNotFound("7".to_string());
    assert_eq!(err.to_string(), "Error: Node 7 not found in the tree.");
}

#[test]
fn test_error_fmt_formatting() {
    let err = Error::FmtError(FmtError);
    assert_eq!(err.to_string(), FmtError.to_string());
}

#[test]
fn test_error_eq_and_clone() {
    let err = Error::NodeNotFound("7".to_string());
    assert_eq!(err.clone(), err);
    assert_ne!(err, Error::NodeNotFound("8".to_string()));
    assert_ne!(err, Error::InvalidOperation("7".to_string()));
    assert_ne!(Error::RootNodeAlreadyPresent, Error::FmtError(FmtError));
    assert_eq!(Error::FmtError(FmtError).clone(), Error::FmtError(FmtError));
}
