use istringscheck::discover::{
    classify_entry, has_strings_extension, remove_source_path, EntryAction,
};

#[test]
fn strings_files_are_taken_and_others_skipped() {
    assert_eq!(classify_entry("a/en.strings", false), EntryAction::Take);
    assert_eq!(classify_entry("a/b/fr.strings", false), EntryAction::Take);
    assert_eq!(classify_entry("a/notes.txt", false), EntryAction::Skip);
}

#[test]
fn directories_are_descended_into() {
    assert_eq!(classify_entry("a/b", true), EntryAction::Descend);
    // Even a directory named like a localization file is searched, not taken.
    assert_eq!(classify_entry("a/b.strings", true), EntryAction::Descend);
}

#[test]
fn the_extension_match_is_exact() {
    assert!(has_strings_extension("en.strings"));
    assert!(has_strings_extension("dir/sub/en.strings"));
    assert!(has_strings_extension("odd..strings"));
    // A file name that is nothing but `.strings` has no extension.
    assert!(!has_strings_extension(".strings"));
    assert!(!has_strings_extension("dir/.strings"));
    // Case-sensitive, whole-extension comparison.
    assert!(!has_strings_extension("en.Strings"));
    assert!(!has_strings_extension("en.stringsx"));
    assert!(!has_strings_extension("en.xstrings"));
    assert!(!has_strings_extension("strings"));
    assert!(!has_strings_extension(""));
}

#[test]
fn the_source_path_is_removed_from_the_discovered_files() {
    let mut files = vec![
        String::from("a/en.strings"),
        String::from("a/source.strings"),
        String::from("a/b/fr.strings"),
    ];
    remove_source_path(&mut files, &String::from("a/source.strings"));
    assert_eq!(
        files,
        vec![String::from("a/en.strings"), String::from("a/b/fr.strings")]
    );
}

#[test]
fn an_absent_source_path_removes_nothing() {
    let mut files = vec![String::from("a/en.strings")];
    remove_source_path(&mut files, &String::from("elsewhere/source.strings"));
    assert_eq!(files, vec![String::from("a/en.strings")]);
}

#[test]
fn only_the_first_occurrence_of_the_source_path_is_removed() {
    let mut files = vec![
        String::from("dup.strings"),
        String::from("other.strings"),
        String::from("dup.strings"),
    ];
    remove_source_path(&mut files, &String::from("dup.strings"));
    assert_eq!(
        files,
        vec![String::from("other.strings"), String::from("dup.strings")]
    );
}
