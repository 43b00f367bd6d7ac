//! Where certificates come from.
use simulife::tls::{cert_source, CertSource, PathState};

#[test]
fn certificates_come_from_disk_only_when_both_files_are_there() {
    let (none, missing, there) = (PathState::NotGiven, PathState::Missing, PathState::Present);
    assert_eq!(cert_source(none, none), CertSource::Ephemeral);
    assert_eq!(cert_source(there, there), CertSource::LoadedFromDisk);
    assert_eq!(cert_source(there, missing), CertSource::GeneratedAndSaved);
    assert_eq!(cert_source(missing, there), CertSource::GeneratedAndSaved);
    assert_eq!(cert_source(missing, missing), CertSource::GeneratedAndSaved);
}
