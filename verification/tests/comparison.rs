use istringscheck::compare::compare;
use istringscheck::parse::extract;
use istringscheck::table::LocalizationTable;
use istringscheck::{path_from_string, validate_args};

#[test]
fn identical_tables_compare_clean() {
    let mut source = LocalizationTable::new();
    source.insert(String::from("Title"), 0);
    source.insert(String::from("Body"), 2);
    let mut translated = LocalizationTable::new();
    translated.insert(String::from("Body"), 2);
    translated.insert(String::from("Title"), 0);
    let findings = compare(&source, &translated).unwrap();
    assert!(findings.is_empty());
}

#[test]
fn a_mismatched_count_is_reported_exactly_once_and_processing_continues() {
    let mut source = LocalizationTable::new();
    source.insert(String::from("A"), 1);
    source.insert(String::from("B"), 2);
    source.insert(String::from("C"), 3);
    let mut translated = LocalizationTable::new();
    translated.insert(String::from("A"), 7);
    translated.insert(String::from("B"), 2);
    translated.insert(String::from("C"), 9);
    let findings = compare(&source, &translated).unwrap();
    // Both mismatches are reported, each once; the agreeing key is not.
    assert_eq!(findings.len(), 2);
    let about_a: Vec<_> = findings.iter().filter(|f| f.key == "A").collect();
    assert_eq!(about_a.len(), 1);
    assert_eq!(about_a[0].source_count, 1);
    assert_eq!(about_a[0].translated_count, 7);
    let about_c: Vec<_> = findings.iter().filter(|f| f.key == "C").collect();
    assert_eq!(about_c.len(), 1);
    assert_eq!(about_c[0].source_count, 3);
    assert_eq!(about_c[0].translated_count, 9);
}

#[test]
fn a_missing_key_is_fatal() {
    let mut source = LocalizationTable::new();
    source.insert(String::from("Kept"), 0);
    source.insert(String::from("Dropped"), 1);
    let mut translated = LocalizationTable::new();
    translated.insert(String::from("Kept"), 0);
    let err = compare(&source, &translated).unwrap_err();
    assert_eq!(err.key, "Dropped");
}

#[test]
fn extra_keys_in_the_translation_are_ignored() {
    let mut source = LocalizationTable::new();
    source.insert(String::from("A"), 1);
    let mut translated = LocalizationTable::new();
    translated.insert(String::from("A"), 1);
    translated.insert(String::from("Unused"), 5);
    let findings = compare(&source, &translated).unwrap();
    assert!(findings.is_empty());
}

#[test]
fn end_to_end_source_against_translation() {
    let source_text = "\"Title\" = \"plain\";\n\"Body\" = \"hello %@\";";
    let translated_text = "\"Title\" = \"plat\";\n\"Body\" = \"salut %@ %@\";";
    let source = extract(source_text);
    let translated = extract(translated_text);
    assert_eq!(source.get(&String::from("Title")), Some(0));
    assert_eq!(source.get(&String::from("Body")), Some(1));
    let findings = compare(&source, &translated).unwrap();
    assert_eq!(findings.len(), 1);
    assert_eq!(findings[0].key, "Body");
    assert_eq!(findings[0].source_count, 1);
    assert_eq!(findings[0].translated_count, 2);
}

#[test]
fn arguments_are_valid_only_with_source_file_and_translations_directory() {
    assert!(validate_args(true, true));
    assert!(!validate_args(false, true));
    assert!(!validate_args(true, false));
    assert!(!validate_args(false, false));
}

#[test]
fn a_path_keeps_its_text() {
    let p = path_from_string(&String::from("some/dir/en.strings"));
    assert_eq!(p, "some/dir/en.strings");
}
