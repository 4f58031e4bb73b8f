//! Checks that localized `.strings` files keep the same set of translation
//! keys, and the same number of `%` format placeholders per key, as a source
//! localization file.

pub mod compare;
pub mod discover;
pub mod parse;
pub mod table;

use vstd::prelude::*;

verus! {

/// The library's own representation of a file-system path: its text. Callers
/// that hold paths in another form normalize them through this function.
pub fn path_from_string(path_string: &String) -> (p: String)
    ensures
        p@ == path_string@,
{
    path_string.clone()
}

/// Decides whether a run may start: the source argument must name an existing
/// regular file and the translations argument an existing directory. The
/// caller establishes the two facts by inspecting the file system and passes
/// them in as plain booleans.
pub fn validate_args(source_is_file: bool, translations_is_dir: bool) -> (ok: bool)
    ensures
        ok == (source_is_file && translations_is_dir),
{
    source_is_file && translations_is_dir
}

} // verus!
