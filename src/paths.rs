//! Checking that a path given on the command line names something.
use vstd::prelude::*;
use vstd::string::StringExecFns;
use std::path::PathBuf;

verus! {

#[verifier::external_type_specification]
#[verifier::external_body]
pub struct ExPathBuf(PathBuf);

/// Relies on `PathBuf::from`: the path that the text spells.
#[verifier::external_body]
fn path_of(s: &str) -> PathBuf {
    PathBuf::from(s)
}

/// Relies on `Path::exists`: whether the file system has an entry at the
/// path at the moment of the call.
#[verifier::external_body]
fn is_present(p: &PathBuf) -> bool {
    p.exists()
}

/// The path that `path` spells, if the file system has an entry there, and
/// otherwise the message that it was not found.
pub fn path_exists(path: &str) -> (r: Result<PathBuf, String>)
    ensures
        r is Err ==> r->Err_0@ == "File not found!"@,
{
    let p = path_of(path);
    if is_present(&p) {
        Ok(p)
    } else {
        Err(String::from_str("File not found!"))
    }
}

} // verus!
