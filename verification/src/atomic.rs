//! The rules for writing a file so that an interrupted write never leaves a
//! damaged one.
//!
//! The bytes land in a temporary file beside the target, are flushed to disk, and
//! only then replace it with a rename. Doing that is input and output; what is
//! decided here is who may read the result, and where the temporary file goes.

use vstd::prelude::*;

use crate::text::{joined, owned};

verus! {

/// Who should be able to read the file afterwards.
#[derive(Debug, Clone, Copy, PartialEq, Eq, Structural)]
pub enum Access {
    /// Only this user (`0600`, in a `0700` directory). For anything holding
    /// credentials.
    Private,
    /// Whatever the umask says. For files that are not ours alone, such as the
    /// ones Steam also reads and writes.
    Default,
}

impl Access {
    /// The permission bits a file written with this access gets, when it sets any.
    pub fn file_mode(self) -> (mode: Option<u32>)
        ensures
            mode == match self {
                Access::Private => Some(0o600u32),
                Access::Default => None::<u32>,
            },
    {
        match self {
            Access::Private => Some(0o600),
            Access::Default => None,
        }
    }

    /// The permission bits the directory holding such a file gets, when it sets any.
    pub fn dir_mode(self) -> (mode: Option<u32>)
        ensures
            mode == match self {
                Access::Private => Some(0o700u32),
                Access::Default => None::<u32>,
            },
    {
        match self {
            Access::Private => Some(0o700),
            Access::Default => None,
        }
    }
}

/// What the temporary file's name ends with.
pub const TEMPORARY_SUFFIX: &'static str = ".gamestore-tmp";

/// The last component of `path`, as `std::path::Path::file_name` gives it; `None`
/// when the path ends in `..` or is a root.
pub uninterp spec fn path_file_name(path: Seq<char>) -> Option<Seq<char>>;

/// `path` with its last component replaced by `name`, as
/// `std::path::Path::with_file_name` gives it.
pub uninterp spec fn path_with_file_name(path: Seq<char>, name: Seq<char>) -> Seq<char>;

/// The last component of `path`.
///
/// Trusted: `std::path::Path::file_name`, read as text, whose result depends on
/// the path alone.
#[verifier::external_body]
fn file_name_of(path: &str) -> (name: Option<String>)
    ensures
        match name {
            Some(found) => path_file_name(path@) == Some(found@),
            None => path_file_name(path@) is None,
        },
{
    std::path::Path::new(path).file_name().map(|found| found.to_string_lossy().into_owned())
}

/// `path` with its last component replaced by `name`.
///
/// Trusted: `std::path::Path::with_file_name`, read as text, whose result depends
/// on its two arguments alone.
#[verifier::external_body]
fn with_file_name(path: &str, name: &str) -> (result: String)
    ensures
        result@ == path_with_file_name(path@, name@),
{
    std::path::Path::new(path).with_file_name(name).to_string_lossy().into_owned()
}

/// The temporary file's name for a target whose last component is `name`.
pub open spec fn temporary_name(name: Option<Seq<char>>) -> Seq<char> {
    match name {
        Some(found) => found + TEMPORARY_SUFFIX@,
        None => TEMPORARY_SUFFIX@,
    }
}

/// The temporary file used while writing `path`. Beside it on purpose: a rename is
/// only atomic within one filesystem, and the system temporary directory is
/// routinely on another.
pub fn temporary_beside(path: &str) -> (temporary: String)
    ensures
        temporary@ == path_with_file_name(path@, temporary_name(path_file_name(path@))),
{
    let name = match file_name_of(path) {
        Some(found) => joined(found.as_str(), TEMPORARY_SUFFIX),
        None => owned(TEMPORARY_SUFFIX),
    };
    proof {
        assert(temporary_name(path_file_name(path@)) == name@);
    }
    with_file_name(path, name.as_str())
}

} // verus!
