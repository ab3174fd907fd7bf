//! Deciding which directory holds the game's data store: an override wins
//! when it names an existing path, otherwise a platform-specific default
//! under the home or data directory.
use vstd::prelude::*;

verus! {

/// The kinds of host platform the locator distinguishes.
#[derive(Clone, Copy, PartialEq, Eq, Structural, Debug)]
pub enum Platform {
    MacOs,
    Windows,
    Other,
}

/// Why no installation directory could be produced.
#[derive(Debug, PartialEq, Eq)]
pub enum LocateError {
    /// The platform could not supply a home or data directory.
    HomeDirectoryUnknown,
    /// The derived default directory does not exist on disk.
    InstallationNotFound { path: String },
}

/// The platform-specific path from the base (home or data) directory down to
/// the installation directory.
pub open spec fn spec_default_subpath(platform: Platform) -> Seq<char> {
    match platform {
        Platform::MacOs => "/Library/Application Support/minecraft"@,
        Platform::Windows => "/.minecraft"@,
        Platform::Other => "/.minecraft"@,
    }
}

/// Decide the candidate installation directory, before any existence check
/// of the derived default.
///
/// `override_dir` must be the externally supplied override only when it
/// names a path that exists: such an override is authoritative and bypasses
/// auto-detection. `base_dir` is the platform's home directory (or data
/// directory on Windows), if it could be determined.
pub fn installation_candidate(
    override_dir: Option<String>,
    platform: Platform,
    base_dir: Option<String>,
) -> (r: Result<String, LocateError>)
    ensures
        override_dir matches Some(p) ==> (r matches Ok(c) && c@ == p@),
        override_dir is None ==> (base_dir matches Some(b) ==> (r matches Ok(c) && c@ == b@
            + spec_default_subpath(platform))),
        override_dir is None && base_dir is None ==> (r matches Err(e)
            && e is HomeDirectoryUnknown),
{
    match override_dir {
        Some(p) => Ok(p),
        None => match base_dir {
            Some(b) => {
                let sub: &str = match platform {
                    Platform::MacOs => "/Library/Application Support/minecraft",
                    Platform::Windows => "/.minecraft",
                    Platform::Other => "/.minecraft",
                };
                Ok(b.concat(sub))
            }
            None => Err(LocateError::HomeDirectoryUnknown),
        },
    }
}

/// Accept a candidate installation directory only if it exists on disk;
/// otherwise fail, carrying the computed path for diagnostics.
pub fn confirm_installation(candidate: String, exists_on_disk: bool) -> (r: Result<
    String,
    LocateError,
>)
    ensures
        exists_on_disk ==> (r matches Ok(p) && p@ == candidate@),
        !exists_on_disk ==> (r matches Err(e) && e matches LocateError::InstallationNotFound {
            path } && path@ == candidate@),
{
    if exists_on_disk {
        Ok(candidate)
    } else {
        Err(LocateError::InstallationNotFound { path: candidate })
    }
}

} // verus!
