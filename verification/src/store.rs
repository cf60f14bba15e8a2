//! The store's decisions: where a named environment lives, which
//! operations are allowed in the observed state of the store, and which
//! error each refused operation reports. The caller performs the file
//! operations themselves and reports what it observed.

use vstd::prelude::*;

use crate::codec::{decode, decode_spec};
use crate::environment::{env_wf, Environment};
use crate::errors::Error;
use crate::names::{env_path, name_to_path};

verus! {

/// The configuration directory under a user's home directory.
pub open spec fn config_dir_of(home: Seq<char>) -> Seq<char> {
    home + seq!['/', '.', 'r', 's', 'e', 'n', 'v']
}

/// Resolve the configuration directory from the user's home directory,
/// handed in by the caller; the caller then creates it if absent.
/// Without a usable home directory no store location can be resolved.
pub fn init_dirs(home: Option<&str>) -> (r: Result<String, Error>)
    ensures
        match r {
            Ok(p) => home is Some && home->Some_0@.len() > 0 && p@ == config_dir_of(
                home->Some_0@,
            ),
            Err(e) => e == Error::DirectoryUnavailable && (home is None || home->Some_0@.len()
                == 0),
        },
{
    match home {
        Some(h) => {
            if h.is_empty() {
                Err(Error::DirectoryUnavailable)
            } else {
                let mut out = String::from_str(h);
                out.append("/.rsenv");
                proof {
                    reveal_strlit("/.rsenv");
                    assert(("/.rsenv")@ =~= seq!['/', '.', 'r', 's', 'e', 'n', 'v']);
                    assert(out@ =~= config_dir_of(h@));
                }
                Ok(out)
            }
        },
        None => Err(Error::DirectoryUnavailable),
    }
}

/// Decide an install: the destination path under `base` when the source
/// file exists, `SourceNotFound` otherwise. The caller copies the
/// source bytes verbatim to the returned path.
pub fn install_env(base: &str, name: &str, source_exists: bool) -> (r: Result<String, Error>)
    ensures
        match r {
            Ok(dest) => source_exists && dest@ == env_path(base@, name@),
            Err(e) => !source_exists && e == Error::SourceNotFound,
        },
{
    if source_exists {
        Ok(name_to_path(base, name))
    } else {
        Err(Error::SourceNotFound)
    }
}

/// Decide a removal: the path to delete when the named environment
/// exists, `EnvironmentNotFound` otherwise.
pub fn remove_env(base: &str, name: &str, dest_exists: bool) -> (r: Result<String, Error>)
    ensures
        match r {
            Ok(dest) => dest_exists && dest@ == env_path(base@, name@),
            Err(e) => !dest_exists && e == Error::EnvironmentNotFound,
        },
{
    if dest_exists {
        Ok(name_to_path(base, name))
    } else {
        Err(Error::EnvironmentNotFound)
    }
}

/// Decide an edit: the path to open in the editor when the named
/// environment exists, `EnvironmentNotFound` otherwise.
pub fn edit_env(base: &str, name: &str, dest_exists: bool) -> (r: Result<String, Error>)
    ensures
        match r {
            Ok(dest) => dest_exists && dest@ == env_path(base@, name@),
            Err(e) => !dest_exists && e == Error::EnvironmentNotFound,
        },
{
    if dest_exists {
        Ok(name_to_path(base, name))
    } else {
        Err(Error::EnvironmentNotFound)
    }
}

/// Decode a loaded environment. `contents` is the stored file's text,
/// or nothing when no file exists under the name: then the environment
/// is not found; malformed text is a decode error; anything else is the
/// stored environment.
pub fn load_env(contents: Option<&str>) -> (r: Result<Environment, Error>)
    ensures
        match r {
            Ok(env) => contents is Some && decode_spec(contents->Some_0@) == Some(env@)
                && env_wf(env@),
            Err(e) => {
                ||| (e == Error::EnvironmentNotFound && contents is None)
                ||| (e == Error::DecodeError && contents is Some && decode_spec(
                    contents->Some_0@,
                ) is None)
            },
        },
{
    match contents {
        Some(text) => decode(text),
        None => Err(Error::EnvironmentNotFound),
    }
}

} // verus!
