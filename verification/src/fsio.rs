//! Trusted wrappers around the filesystem operations the library
//! needs. Each wrapper makes exactly one outside call and converts its
//! arguments and result between plain strings and the outside types.
//! What a call returns depends on the machine's filesystem, so most of
//! these state nothing about their results.

use vstd::prelude::*;

verus! {

/// Relies on `fs_err::canonicalize`: returns the canonical, absolute
/// form of the path, with all intermediate components normalized and
/// symbolic links resolved, or the error if the path does not exist or
/// cannot be resolved. The clause that a canonical path begins with
/// `/` holds on Unix-likes, the only systems the crate's path model
/// covers.
#[verifier::external_body]
pub fn fs_canonicalize(path: &str) -> (r: Result<String, String>)
    ensures
        r matches Ok(s) ==> s@.len() > 0 && s@[0] == '/',
{
    match fs_err::canonicalize(path) {
        Ok(p) => match p.into_os_string().into_string() {
            Ok(s) => Ok(s),
            Err(_) => Err("canonical path is not valid UTF-8".to_owned()),
        },
        Err(e) => Err(e.to_string()),
    }
}

/// Relies on `fs_err::metadata`: succeeds exactly when the path points
/// at an existing filesystem entity (following symlinks).
#[verifier::external_body]
pub fn fs_exists(path: &str) -> bool {
    fs_err::metadata(path).is_ok()
}

/// Relies on `fs_err::metadata`: whether the path points at an
/// existing directory (following symlinks).
#[verifier::external_body]
pub fn fs_is_dir(path: &str) -> bool {
    fs_err::metadata(path).map(|m| m.is_dir()).unwrap_or(false)
}

/// Relies on `fs_err::metadata`: whether the path points at an
/// existing regular file (following symlinks).
#[verifier::external_body]
pub fn fs_is_file(path: &str) -> bool {
    fs_err::metadata(path).map(|m| m.is_file()).unwrap_or(false)
}

/// Relies on `fs_err::symlink_metadata`: `None` if the path does not
/// exist (without following a final symlink), otherwise whether the
/// entity at the path is itself a symlink.
#[verifier::external_body]
pub fn fs_symlink_kind(path: &str) -> Option<bool> {
    fs_err::symlink_metadata(path).ok().map(|m| m.file_type().is_symlink())
}

/// Relies on `fs_err::create_dir_all`: creates the directory and every
/// missing ancestor; succeeds if it already exists.
#[verifier::external_body]
pub fn fs_create_dir_all(path: &str) -> Result<(), String> {
    fs_err::create_dir_all(path).map_err(|e| e.to_string())
}

/// Relies on `fs_err::hard_link`: creates a hard link at `to` pointing
/// at the file `from`.
#[verifier::external_body]
pub fn fs_hard_link(from: &str, to: &str) -> Result<(), String> {
    fs_err::hard_link(from, to).map_err(|e| e.to_string())
}

/// Relies on `symlink::symlink_auto`: creates a symbolic link at `to`
/// pointing at `from`, of the flavour matching whether `from` is a
/// directory.
#[verifier::external_body]
pub fn fs_symlink_auto(from: &str, to: &str) -> Result<(), String> {
    symlink::symlink_auto(from, to).map_err(|e| e.to_string())
}

/// Relies on `fs_err::copy`: copies the content (and permissions) of
/// the file `from` to `to`, creating or truncating `to`.
#[verifier::external_body]
pub fn fs_copy_file(from: &str, to: &str) -> Result<(), String> {
    fs_err::copy(from, to).map(|_| ()).map_err(|e| e.to_string())
}

/// Relies on `fs_err::read_to_string`: reads the whole file into a
/// string.
#[verifier::external_body]
pub fn fs_read_to_string(path: &str) -> Result<String, String> {
    fs_err::read_to_string(path).map_err(|e| e.to_string())
}

/// Relies on `fs_err::write`: writes the content as the whole file,
/// creating or truncating it.
#[verifier::external_body]
pub fn fs_write(path: &str, content: &str) -> Result<(), String> {
    fs_err::write(path, content).map_err(|e| e.to_string())
}

} // verus!
