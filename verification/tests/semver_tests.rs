//! Tests for SemVer compatibility checking.

use convergio_depgraph::semver_check::check;

#[test]
fn exact_match() {
    assert!(check("1.0.0", "=1.0.0").is_ok());
}

#[test]
fn range_match() {
    assert!(check("1.2.3", ">=1.0.0, <2.0.0").is_ok());
}

#[test]
fn range_mismatch() {
    assert!(check("0.9.0", ">=1.0.0").is_err());
}

#[test]
fn caret_match() {
    assert!(check("0.1.5", "^0.1.0").is_ok());
}

#[test]
fn caret_mismatch() {
    assert!(check("0.2.0", "^0.1.0").is_err());
}

#[test]
fn wildcard_match() {
    assert!(check("3.7.1", ">=0.1.0").is_ok());
}

#[test]
fn invalid_version_errors() {
    assert!(check("not-a-version", ">=1.0.0").is_err());
}

#[test]
fn invalid_req_errors() {
    assert!(check("1.0.0", "not-a-req!!!").is_err());
}
