//! What is asked of the registry and of the source host, and what their
//! answers mean.

use crate::manifest::{prefixed, prefixed_name};
use crate::version::Version;
use vstd::prelude::*;
use vstd::string::*;

verus! {

/// Why the registry's answer gives no version.
#[derive(Clone, Copy, Debug, PartialEq, Eq, Structural)]
pub enum LookupError {
    /// The status is neither 200 nor 404.
    UnexpectedStatus,
    /// The status is 200 and the body holds no version.
    MalformedBody,
}

/// The newest published version that an answer of the registry stands
/// for: 0.0.0 where the package is not known (status 404), the version in
/// the body where the status is 200.
pub open spec fn published_version_spec(status: u32, reported: Option<Version>) -> Result<
    Version,
    LookupError,
> {
    if status == 404 {
        Ok(Version { major: 0, minor: 0, patch: 0 })
    } else if status != 200 {
        Err(LookupError::UnexpectedStatus)
    } else {
        match reported {
            Some(v) => Ok(v),
            None => Err(LookupError::MalformedBody),
        }
    }
}

/// The newest published version of a package, from the status of the
/// registry's answer and the version that its body reports, if any.
pub fn published_version(status: u32, reported: Option<Version>) -> (r: Result<
    Version,
    LookupError,
>)
    ensures
        r == published_version_spec(status, reported),
{
    if status == 404 {
        Ok(Version { major: 0, minor: 0, patch: 0 })
    } else if status != 200 {
        Err(LookupError::UnexpectedStatus)
    } else {
        match reported {
            Some(v) => Ok(v),
            None => Err(LookupError::MalformedBody),
        }
    }
}

/// The address at which the registry describes the published package of `name`.
pub fn registry_url(name: &str) -> (r: String)
    ensures
        r@ == "https://crates.io/api/v1/crates/"@ + prefixed(name@),
{
    let published = prefixed_name(name);
    String::from_str("https://crates.io/api/v1/crates/").concat(published.as_str())
}

/// The address of the archive of the sources at `commit`.
pub fn tarball_url(commit: &str) -> (r: String)
    ensures
        r@ == "https://github.com/rust-lang/rust/archive/"@ + commit@ + ".tar.gz"@,
{
    String::from_str("https://github.com/rust-lang/rust/archive/").concat(commit).concat(".tar.gz")
}

/// The name of the directory that the archive of the sources at `commit` unpacks to.
pub fn source_directory(commit: &str) -> (r: String)
    ensures
        r@ == "rust-"@ + commit@,
{
    String::from_str("rust-").concat(commit)
}

} // verus!
