use notas::naming::{file_stem, generate_filename, is_note_file};

#[test]
fn filename_has_tag_timestamp_and_sanitized_slug() {
    let name = generate_filename(&String::from("My Note!"), 1700000000123);
    assert_eq!(name, "note-1700000000123-my-note.md");
}

#[test]
fn slug_lowers_joins_and_strips() {
    assert_eq!(
        generate_filename(&String::from("Hello World 42"), 7),
        "note-7-hello-world-42.md"
    );
    assert_eq!(generate_filename(&String::from("??!!"), 7), "note-7-.md");
    assert_eq!(generate_filename(&String::from(""), 7), "note-7-.md");
    assert_eq!(
        generate_filename(&String::from("a-b_c"), 7),
        "note-7-a-bc.md"
    );
}

#[test]
fn note_files_match_extension_case_insensitively() {
    assert!(is_note_file(&String::from("a.md")));
    assert!(is_note_file(&String::from("a.MD")));
    assert!(is_note_file(&String::from("a.Md")));
    assert!(is_note_file(&String::from("some.note.md")));
    assert!(!is_note_file(&String::from("a.txt")));
    assert!(!is_note_file(&String::from("amd")));
    assert!(!is_note_file(&String::from(".md")));
    assert!(!is_note_file(&String::from("md")));
}

#[test]
fn stems_drop_only_the_final_extension() {
    assert_eq!(file_stem(&String::from("plain.md")), "plain");
    assert_eq!(file_stem(&String::from("a.b.md")), "a.b");
    assert_eq!(file_stem(&String::from("noext")), "noext");
    assert_eq!(file_stem(&String::from(".hidden")), ".hidden");
    assert_eq!(file_stem(&String::from("")), "");
}
