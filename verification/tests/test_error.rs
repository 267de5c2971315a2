//! Tests for error types.

use samesame::error::SameError;

#[test]
fn test_file_read_error_display() {
    let err = SameError::FileRead {
        path: "/some/path/file.rs".to_string(),
        source: "file not found".to_string(),
    };
    let msg = err.message();
    assert!(msg.contains("/some/path/file.rs"));
    assert!(msg.contains("file not found"));
}

#[test]
fn test_no_files_found_error_display() {
    let err = SameError::NoFilesFound;
    let msg = err.message();
    assert!(msg.contains("No files found"));
}

#[test]
fn test_invalid_glob_error_display() {
    let err = SameError::InvalidGlob {
        pattern: "**[invalid".to_string(),
        message: "unclosed bracket".to_string(),
    };
    let msg = err.message();
    assert!(msg.contains("**[invalid"));
    assert!(msg.contains("unclosed bracket"));
}

#[test]
fn test_error_debug() {
    let err = SameError::NoFilesFound;
    let debug = format!("{:?}", err);
    assert!(debug.contains("NoFilesFound"));
}

#[test]
fn test_error_messages_exact() {
    let err = SameError::FileRead {
        path: "a.rs".to_string(),
        source: "denied".to_string(),
    };
    assert_eq!(err.message(), "Failed to read file 'a.rs': denied");
    assert_eq!(
        SameError::NoFilesFound.message(),
        "No files found matching the specified patterns"
    );
    let err = SameError::InvalidGlob {
        pattern: "[".to_string(),
        message: "bad".to_string(),
    };
    assert_eq!(err.message(), "Invalid glob pattern '[': bad");
}
