//! Which entries of a directory walk are analysed.

use vstd::prelude::*;

verus! {

/// Whether an entry of a directory walk is to be analysed: it is a regular
/// file, and its name has an extension that is exactly `file_ext`.
pub fn is_file_with_ext(is_file: bool, extension: Option<&str>, file_ext: &str) -> (wanted: bool)
    ensures
        wanted == (is_file && match extension {
            Some(ext) => ext@ == file_ext@,
            None => false,
        }),
{
    if !is_file {
        return false;
    }
    match extension {
        Some(ext) => {
            let have: String = ext.to_owned();
            let want: String = file_ext.to_owned();
            have == want
        },
        None => false,
    }
}

} // verus!
