//! What the engine asks of the world around it: whether a path is a
//! directory, whether it is absolute, and what time it is.

use vstd::prelude::*;
use crate::timestamp::{lemma_decode_of_encode, Timestamp, NANOS_PER_SECOND};

verus! {

/// What was found out about a path before it is added.
#[derive(Clone, Copy, Debug, PartialEq, Eq, Structural)]
pub struct PathProbe {
    /// The path names a directory that exists.
    pub is_dir: bool,
    /// The path is absolute.
    pub is_absolute: bool,
}

/// `Path::is_dir`: whether the path names a directory right now. The answer
/// is the file system's and may differ from one call to the next.
#[verifier::external_body]
fn path_is_dir(path: &str) -> bool {
    std::path::Path::new(path).is_dir()
}

/// `Path::is_absolute`: whether the path is absolute on this platform.
#[verifier::external_body]
fn path_is_absolute(path: &str) -> bool {
    std::path::Path::new(path).is_absolute()
}

/// `SystemTime::now`, as the seconds since the Unix epoch and the nanoseconds
/// within the second; none where the clock reads a time before the epoch.
#[verifier::external_body]
fn system_time_now() -> (parts: Option<(u64, u32)>)
    ensures
        parts matches Some(since) ==> since.1 < NANOS_PER_SECOND,
{
    std::time::SystemTime::now().duration_since(std::time::UNIX_EPOCH).ok().map(
        |since| (since.as_secs(), since.subsec_nanos()),
    )
}

/// Looks at the path on this machine.
pub(crate) fn probe_path(path: &str) -> PathProbe {
    PathProbe { is_dir: path_is_dir(path), is_absolute: path_is_absolute(path) }
}

/// The current time, as the clock of this machine tells it; none where the
/// clock reads a time before the Unix epoch. The nanoseconds of a reading are
/// within one second, so that it is read back from its stored form as it was
/// written.
pub(crate) fn now() -> (reading: Option<Timestamp>)
    ensures
        reading matches Some(stamp) ==> stamp.spec_nanos() < NANOS_PER_SECOND
            && Timestamp::spec_decode(stamp.spec_encode()) == Some(stamp),
{
    match system_time_now() {
        Some((secs, nanos)) => {
            let stamp = Timestamp::from_parts(secs, nanos);
            proof {
                lemma_decode_of_encode(stamp);
            }
            Some(stamp)
        },
        None => None,
    }
}

} // verus!
