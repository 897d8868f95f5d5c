//! SemVer compatibility checking between provided and required versions.

use vstd::prelude::*;

verus! {

/// A SemVer version as the `semver` crate represents it.
#[verifier::external_type_specification]
#[verifier::external_body]
pub struct ExVersion(semver::Version);

/// A SemVer version requirement as the `semver` crate represents it.
#[verifier::external_type_specification]
#[verifier::external_body]
pub struct ExVersionReq(semver::VersionReq);

/// Whether `semver::Version::parse` accepts the text.
pub uninterp spec fn semver_version_parses(text: Seq<char>) -> bool;

/// Whether `semver::VersionReq::parse` accepts the text.
pub uninterp spec fn semver_req_parses(text: Seq<char>) -> bool;

/// What `semver::VersionReq::matches` answers for the requirement parsed from
/// `req` and the version parsed from `version`.
pub uninterp spec fn semver_req_matches(req: Seq<char>, version: Seq<char>) -> bool;

/// `provided` parses as a version, `required` as a requirement, and the
/// version satisfies the requirement.
pub open spec fn semver_compatible(provided: Seq<char>, required: Seq<char>) -> bool {
    &&& semver_version_parses(provided)
    &&& semver_req_parses(required)
    &&& semver_req_matches(required, provided)
}

/// A version parsed by the `semver` crate, together with the text it came from.
pub struct ParsedVersion {
    text: String,
    value: semver::Version,
}

impl View for ParsedVersion {
    type V = Seq<char>;

    closed spec fn view(&self) -> Seq<char> {
        self.text@
    }
}

/// A version requirement parsed by the `semver` crate, together with the text it came from.
pub struct ParsedVersionReq {
    text: String,
    value: semver::VersionReq,
}

impl View for ParsedVersionReq {
    type V = Seq<char>;

    closed spec fn view(&self) -> Seq<char> {
        self.text@
    }
}

/// Calls `semver::Version::parse`; `Some` exactly when it returns `Ok`, holding
/// the parsed value beside a copy of the text.
#[verifier::external_body]
fn parse_version(text: &str) -> (res: Option<ParsedVersion>)
    ensures
        res.is_some() == semver_version_parses(text@),
        res matches Some(v) ==> v@ == text@,
{
    match semver::Version::parse(text) {
        Ok(value) => Some(ParsedVersion { text: text.to_string(), value }),
        Err(_) => None,
    }
}

/// Calls `semver::VersionReq::parse`; `Some` exactly when it returns `Ok`,
/// holding the parsed value beside a copy of the text.
#[verifier::external_body]
fn parse_version_req(text: &str) -> (res: Option<ParsedVersionReq>)
    ensures
        res.is_some() == semver_req_parses(text@),
        res matches Some(r) ==> r@ == text@,
{
    match semver::VersionReq::parse(text) {
        Ok(value) => Some(ParsedVersionReq { text: text.to_string(), value }),
        Err(_) => None,
    }
}

/// Calls `semver::VersionReq::matches` on the two parsed values. Both were
/// parsed from the texts that they carry, so the answer is a function of those texts.
#[verifier::external_body]
fn req_matches(req: &ParsedVersionReq, version: &ParsedVersion) -> (res: bool)
    ensures
        res == semver_req_matches(req@, version@),
{
    req.value.matches(&version.value)
}

/// Error returned when a version does not satisfy a requirement.
#[derive(Debug)]
pub struct SemVerError {
    pub provided: String,
    pub required: String,
}

/// The answer of a check once it is known whether the version satisfies the requirement.
pub fn verdict(provided_version: &str, version_req_str: &str, satisfied: bool) -> (res: Result<(), SemVerError>)
    ensures
        res.is_ok() == satisfied,
        res matches Err(e) ==> e.provided@ == provided_version@ && e.required@ == version_req_str@,
{
    if satisfied {
        Ok(())
    } else {
        Err(SemVerError {
            provided: String::from_str(provided_version),
            required: String::from_str(version_req_str),
        })
    }
}

/// Check that `provided_version` satisfies `version_req_str`.
///
/// Both strings are parsed as semver; returns Ok(()) on match,
/// Err with details on mismatch or parse failure.
pub fn check(provided_version: &str, version_req_str: &str) -> (res: Result<(), SemVerError>)
    ensures
        res.is_ok() == semver_compatible(provided_version@, version_req_str@),
        res matches Err(e) ==> e.provided@ == provided_version@ && e.required@ == version_req_str@,
{
    let satisfied = match parse_version(provided_version) {
        None => false,
        Some(provided) => match parse_version_req(version_req_str) {
            None => false,
            Some(req) => req_matches(&req, &provided),
        },
    };
    verdict(provided_version, version_req_str, satisfied)
}

} // verus!
