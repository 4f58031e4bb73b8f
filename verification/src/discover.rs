//! Decisions of the recursive search for localization files.
//!
//! The walk over the file system happens outside the library; it reports each
//! directory entry it meets, and the functions here decide what to do with
//! it: descend into directories, take regular files whose extension is
//! exactly `strings`, skip everything else.

use vstd::prelude::*;

verus! {

/// The characters of the suffix `.strings`.
pub open spec fn strings_suffix() -> Seq<char> {
    seq!['.', 's', 't', 'r', 'i', 'n', 'g', 's']
}

/// Whether a path names a file with extension `strings`, under the usual
/// path rules: the extension is what follows the last `.` of the file name
/// (the part after the last `/`), and a `.` that starts the file name does
/// not open an extension. Since neither `/` nor `.` occurs in `strings`,
/// this is exactly: the path ends in `.strings`, and the character before
/// that `.` exists and is not `/`.
pub open spec fn is_strings_path(path: Seq<char>) -> bool {
    &&& path.len() >= 9
    &&& path.subrange(path.len() - 8, path.len() as int) == strings_suffix()
    &&& path[path.len() - 9] != '/'
}

/// What the walk does with one directory entry.
#[derive(PartialEq, Eq, Structural, Clone, Copy, Debug)]
pub enum EntryAction {
    /// The entry is a directory: search it recursively.
    Descend,
    /// The entry is a localization file: add it to the result.
    Take,
    /// The entry is neither: ignore it.
    Skip,
}

/// The decision taken for a directory entry with the given path, where
/// `is_dir` says whether the entry is a directory.
pub open spec fn spec_classify(path: Seq<char>, is_dir: bool) -> EntryAction {
    if is_dir {
        EntryAction::Descend
    } else if is_strings_path(path) {
        EntryAction::Take
    } else {
        EntryAction::Skip
    }
}

/// Reports whether a path names a `strings` localization file.
pub fn has_strings_extension(path: &str) -> (b: bool)
    ensures
        b == is_strings_path(path@),
{
    let n = path.unicode_len();
    if n < 9 {
        return false;
    }
    let b = path.get_char(n - 9) != '/' && path.get_char(n - 8) == '.' && path.get_char(n - 7)
        == 's' && path.get_char(n - 6) == 't' && path.get_char(n - 5) == 'r' && path.get_char(
        n - 4,
    ) == 'i' && path.get_char(n - 3) == 'n' && path.get_char(n - 2) == 'g' && path.get_char(n - 1)
        == 's';
    proof {
        if b {
            assert(path@.subrange(n as int - 8, n as int) =~= strings_suffix());
        } else {
            if path@.subrange(n as int - 8, n as int) == strings_suffix() {
                assert(path@[n as int - 8] == strings_suffix()[0]);
                assert(path@[n as int - 7] == strings_suffix()[1]);
                assert(path@[n as int - 6] == strings_suffix()[2]);
                assert(path@[n as int - 5] == strings_suffix()[3]);
                assert(path@[n as int - 4] == strings_suffix()[4]);
                assert(path@[n as int - 3] == strings_suffix()[5]);
                assert(path@[n as int - 2] == strings_suffix()[6]);
                assert(path@[n as int - 1] == strings_suffix()[7]);
            }
        }
    }
    b
}

/// Decides what the walk does with one directory entry.
pub fn classify_entry(path: &str, is_dir: bool) -> (a: EntryAction)
    ensures
        a == spec_classify(path@, is_dir),
{
    if is_dir {
        EntryAction::Descend
    } else if has_strings_extension(path) {
        EntryAction::Take
    } else {
        EntryAction::Skip
    }
}

/// The position of the first path in `files` that reads `key`, or -1.
pub open spec fn first_index_matching(files: Seq<String>, key: Seq<char>) -> int
    decreases files.len(),
{
    if files.len() == 0 {
        -1
    } else if files[0]@ == key {
        0
    } else {
        let r = first_index_matching(files.skip(1), key);
        if r == -1 {
            -1
        } else {
            r + 1
        }
    }
}

proof fn lemma_first_index_matching(files: Seq<String>, key: Seq<char>, i: int)
    requires
        0 <= i <= files.len(),
        forall|j: int| 0 <= j < i ==> (#[trigger] files[j])@ != key,
        i < files.len() ==> files[i]@ == key,
    ensures
        first_index_matching(files, key) == if i == files.len() {
            -1
        } else {
            i
        },
    decreases files.len(),
{
    if files.len() > 0 {
        if i == 0 {
            if files.len() > 0 && files[0]@ != key {
                lemma_first_index_matching(files.skip(1), key, 0);
            }
        } else {
            assert(files[0]@ != key);
            assert(forall|j: int| 0 <= j < i - 1 ==> (#[trigger] files.skip(1)[j])@ != key);
            assert(i - 1 < files.skip(1).len() ==> files.skip(1)[i - 1]@ == key);
            lemma_first_index_matching(files.skip(1), key, i - 1);
        }
    }
}

/// Removes the first discovered path equal to the source file's own path, so
/// that the source is not compared with itself. Paths are compared as text,
/// and at most one occurrence is removed.
pub fn remove_source_path(files: &mut Vec<String>, source: &String)
    ensures
        first_index_matching(old(files)@, source@) == -1 ==> final(files)@ == old(files)@,
        first_index_matching(old(files)@, source@) >= 0 ==> final(files)@ == old(files)@.remove(
            first_index_matching(old(files)@, source@),
        ),
{
    let mut i: usize = 0;
    while i < files.len()
        invariant
            files@ == old(files)@,
            i <= files@.len(),
            forall|j: int| 0 <= j < i ==> (#[trigger] files@[j])@ != source@,
        decreases files@.len() - i,
    {
        if files[i] == *source {
            proof {
                lemma_first_index_matching(files@, source@, i as int);
            }
            files.remove(i);
            return ;
        }
        i += 1;
    }
    proof {
        lemma_first_index_matching(files@, source@, files@.len() as int);
    }
}

} // verus!
