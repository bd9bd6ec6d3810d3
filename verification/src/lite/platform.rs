//! The user-environment operations of Nalias Lite.

use vstd::prelude::*;

use super::portable as implementation;
use super::portable::{folder_unsupported, path_unsupported};

verus! {

pub fn user_path() -> (r: Result<String, &'static str>)
    ensures
        r matches Err(e) && e@ == path_unsupported(),
{
    implementation::user_path()
}

pub fn set_user_path(value: &str) -> (r: Result<(), &'static str>)
    ensures
        r matches Err(e) && e@ == path_unsupported(),
{
    implementation::set_user_path(value)
}

pub fn broadcast_environment_change() -> (r: Result<(), &'static str>)
    ensures
        r is Ok,
{
    implementation::broadcast_environment_change()
}

pub fn open_folder(path: &str) -> (r: Result<(), &'static str>)
    ensures
        r matches Err(e) && e@ == folder_unsupported(),
{
    implementation::open_folder(path)
}

} // verus!
