//! Where the server's certificate comes from.
use vstd::prelude::*;

verus! {

/// Where the server's certificate came from.
#[derive(Clone, Copy, Debug, PartialEq, Eq, Structural)]
pub enum CertSource {
    /// It was made for this run.
    Ephemeral,
    LoadedFromDisk,
    /// It was made and written to the paths that were given.
    GeneratedAndSaved,
}

/// What is known of a path: whether it was given and, if so, whether a file is there.
#[derive(Clone, Copy, Debug, PartialEq, Eq, Structural)]
pub enum PathState {
    NotGiven,
    Missing,
    Present,
}

/// Where the certificate comes from: from disk when both files are there; a fresh one
/// otherwise, which is saved where paths were given.
pub fn cert_source(cert: PathState, key: PathState) -> (source: CertSource)
    requires
        cert == PathState::NotGiven <==> key == PathState::NotGiven,
    ensures
        source == (if cert == PathState::Present && key == PathState::Present {
            CertSource::LoadedFromDisk
        } else if cert != PathState::NotGiven && key != PathState::NotGiven {
            CertSource::GeneratedAndSaved
        } else {
            CertSource::Ephemeral
        }),
{
    if cert == PathState::Present && key == PathState::Present {
        CertSource::LoadedFromDisk
    } else if cert == PathState::NotGiven {
        CertSource::Ephemeral
    } else {
        CertSource::GeneratedAndSaved
    }
}

} // verus!
