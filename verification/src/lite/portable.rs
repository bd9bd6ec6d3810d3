//! Answers given where no Windows backend is available.

use vstd::prelude::*;

verus! {

pub open spec fn path_unsupported() -> Seq<char> {
    "PATH installation is only supported on Windows"@
}

pub open spec fn folder_unsupported() -> Seq<char> {
    "opening the alias directory is only supported on Windows"@
}

pub fn user_path() -> (r: Result<String, &'static str>)
    ensures
        r matches Err(e) && e@ == path_unsupported(),
{
    Err("PATH installation is only supported on Windows")
}

pub fn set_user_path(value: &str) -> (r: Result<(), &'static str>)
    ensures
        r matches Err(e) && e@ == path_unsupported(),
{
    Err("PATH installation is only supported on Windows")
}

pub fn broadcast_environment_change() -> (r: Result<(), &'static str>)
    ensures
        r is Ok,
{
    Ok(())
}

pub fn open_folder(path: &str) -> (r: Result<(), &'static str>)
    ensures
        r matches Err(e) && e@ == folder_unsupported(),
{
    Err("opening the alias directory is only supported on Windows")
}

} // verus!
