//! Directories that the operating system assigns to the user.

use vstd::prelude::*;

use crate::path::{FsPath, PathFact};

verus! {

/// `dirs::home_dir`: the bytes of the user's home directory. Which directory it
/// is, if any, is up to the environment, so nothing is claimed of it.
#[verifier::external_body]
fn home_bytes() -> Option<Vec<u8>> {
    dirs::home_dir().map(|p| p.into_os_string().into_encoded_bytes())
}

/// `dirs::config_dir`: the bytes of the directory for the user's configuration.
/// Which directory it is, if any, is up to the environment, so nothing is
/// claimed of it.
#[verifier::external_body]
fn config_bytes() -> Option<Vec<u8>> {
    dirs::config_dir().map(|p| p.into_os_string().into_encoded_bytes())
}

/// The path that the environment's answer spells, if it has one.
pub fn place_at(bytes: Option<Vec<u8>>) -> (r: Option<FsPath>)
    ensures
        match (bytes, r) {
            (Some(bytes), Some(path)) => path.fact() == PathFact::spelled(bytes@),
            (None, None) => true,
            _ => false,
        },
{
    match bytes {
        Some(bytes) => Some(FsPath::from_bytes(bytes.as_slice())),
        None => None,
    }
}

/// The user's home directory, if the environment has one.
pub(crate) fn home_dir() -> (r: Option<FsPath>)
    ensures
        r matches Some(path) ==> exists|text: Seq<u8>| path.fact() == #[trigger] PathFact::spelled(
            text,
        ),
{
    place_at(home_bytes())
}

/// The directory for the user's configuration, if the environment has one.
pub(crate) fn config_dir() -> (r: Option<FsPath>)
    ensures
        r matches Some(path) ==> exists|text: Seq<u8>| path.fact() == #[trigger] PathFact::spelled(
            text,
        ),
{
    place_at(config_bytes())
}

} // verus!
