//! Where the application images linked into the kernel lie.
use vstd::prelude::*;

verus! {

/// The image of application `app_id`, from the table of `num_app + 1` image boundaries that
/// the kernel is linked with: its start address and its length.
pub fn get_app_data(app_start: &[u64], app_id: usize) -> (r: (u64, u64))
    requires
        app_id + 1 < app_start@.len(),
        app_start@[app_id as int] <= app_start@[app_id + 1],
    ensures
        r == (app_start@[app_id as int], (app_start@[app_id + 1] - app_start@[app_id as int]) as u64),
{
    let src = app_start[app_id];
    let len = app_start[app_id + 1] - src;
    (src, len)
}

} // verus!
