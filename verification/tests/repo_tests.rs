use notas::codec::parse_frontmatter;
use notas::note::Note;
use notas::repo::{Repository, ScannedFile, StoreError};

fn scan(entries: &[(&str, &str)]) -> Option<Vec<ScannedFile>> {
    Some(
        entries
            .iter()
            .map(|(name, content)| ScannedFile {
                filename: String::from(*name),
                content: String::from(*content),
            })
            .collect(),
    )
}

#[test]
fn directory_configuration_round_trips() {
    let mut repo = Repository::new();
    assert_eq!(repo.get_notes_directory().unwrap(), None);
    repo.set_notes_directory(String::from("/notes")).unwrap();
    assert_eq!(repo.get_notes_directory().unwrap(), Some(String::from("/notes")));
    assert_eq!(
        repo.get_config_store().notes_directory,
        Some(String::from("/notes"))
    );
}

#[test]
fn ensure_initialized_gives_an_empty_index_once() {
    let mut repo = Repository::new();
    assert!(repo.get_notes_store().is_none());
    repo.ensure_initialized();
    assert_eq!(repo.get_notes_store().as_ref().map(|v| v.len()), Some(0));
    repo.ensure_initialized();
    assert_eq!(repo.get_notes_store().as_ref().map(|v| v.len()), Some(0));
}

#[test]
fn in_memory_save_list_delete() {
    let mut repo = Repository::new();
    let note = Repository::prepare_create(&String::from("/n"), &String::from("One"), 5).0;
    let id = note.id.clone();
    repo.save_note(note).unwrap();
    let listed = repo.list_notes().unwrap();
    assert_eq!(listed.len(), 1);
    assert_eq!(listed[0].title, "One");
    repo.delete_note(&id).unwrap();
    assert!(repo.list_notes().unwrap().is_empty());
    // deleting an unknown identifier is not an error
    repo.delete_note(&String::from("ghost.md")).unwrap();
}

#[test]
fn create_builds_an_empty_note_with_both_timestamps() {
    let (note, markdown) =
        Repository::prepare_create(&String::from("/notes"), &String::from("My Note!"), 1000);
    assert_eq!(note.id, "note-1000-my-note.md");
    assert_eq!(note.title, "My Note!");
    assert_eq!(note.content, "");
    assert_eq!(note.path, Some(String::from("/notes/note-1000-my-note.md")));
    assert_eq!(note.created_at, 1000);
    assert_eq!(note.updated_at, 1000);
    assert!(note.tags.is_empty());
    assert_eq!(note.color, None);
    assert_eq!(
        markdown,
        "---\ntitle: My Note!\ncreated: 1000\nmodified: 1000\ntags: []\n---\n\n"
    );
}

#[test]
fn created_document_decodes_back_to_the_note() {
    let (note, markdown) =
        Repository::prepare_create(&String::from("/notes"), &String::from("My Note!"), 1000);
    let (fm, body) = parse_frontmatter(&markdown).expect("created document has a header");
    assert_eq!(fm.title, note.title);
    assert_eq!(body, "");
    assert!(fm.tags.is_empty());
    assert_eq!(fm.color, None);
    assert_eq!(fm.created, 1000);
    assert_eq!(fm.modified, 1000);
}

#[test]
fn save_on_unknown_id_is_not_found() {
    let repo = Repository::new();
    let r = repo.prepare_save(&String::from("nope.md"), String::from("text"), 10);
    assert!(matches!(r, Err(StoreError::NotFound { ref id }) if id == "nope.md"));
}

#[test]
fn save_on_note_without_path_is_not_found() {
    let mut repo = Repository::new();
    let note = Note {
        id: String::from("n.md"),
        title: String::from("N"),
        content: String::from(""),
        path: None,
        created_at: 1,
        updated_at: 1,
        tags: vec![],
        color: None,
    };
    repo.insert_note(note);
    let r = repo.prepare_save(&String::from("n.md"), String::from("text"), 10);
    assert!(matches!(r, Err(StoreError::NotFound { ref id }) if id == "n.md"));
}

#[test]
fn save_replaces_content_and_moves_updated_at_forward() {
    let mut repo = Repository::new();
    let (note, _) = Repository::prepare_create(&String::from("/n"), &String::from("T"), 100);
    let id = note.id.clone();
    repo.insert_note(note);
    let (updated, markdown) = repo
        .prepare_save(&id, String::from("new text"), 500)
        .unwrap();
    assert_eq!(updated.content, "new text");
    assert_eq!(updated.updated_at, 500);
    assert_eq!(updated.created_at, 100);
    assert_eq!(updated.title, "T");
    assert!(markdown.contains("modified: 500"));
    // a clock that went backwards never lowers updated_at
    repo.insert_note(updated);
    let (again, _) = repo.prepare_save(&id, String::from("newer"), 50).unwrap();
    assert_eq!(again.updated_at, 500);
}

#[test]
fn delete_on_unknown_id_is_not_found() {
    let repo = Repository::new();
    let r = repo.prepare_delete(&String::from("nope.md"));
    assert!(matches!(r, Err(StoreError::NotFound { ref id }) if id == "nope.md"));
}

#[test]
fn delete_returns_the_backing_path() {
    let mut repo = Repository::new();
    let (note, _) = Repository::prepare_create(&String::from("/n"), &String::from("T"), 100);
    let id = note.id.clone();
    let path = note.path.clone().unwrap();
    repo.insert_note(note);
    assert_eq!(repo.prepare_delete(&id).unwrap(), path);
}

#[test]
fn listing_a_missing_directory_fails() {
    let mut repo = Repository::new();
    let r = repo.list_notes_files(&String::from("/gone"), None, 0);
    assert!(matches!(
        r,
        Err(StoreError::DirectoryNotFound { ref directory }) if directory == "/gone"
    ));
}

#[test]
fn listing_decodes_headers_and_sorts_newest_first() {
    let mut repo = Repository::new();
    let notes = repo
        .list_notes_files(
            &String::from("/d"),
            scan(&[
                ("old.md", "---\ntitle: Old\ncreated: 10\nmodified: 10\ntags: []\n---\n\nold body"),
                ("new.md", "---\ntitle: New\ncreated: 20\nmodified: 20\ntags: []\n---\n\nnew body"),
                ("skip.txt", "not a note"),
            ]),
            0,
        )
        .unwrap();
    assert_eq!(notes.len(), 2);
    assert_eq!(notes[0].title, "New");
    assert_eq!(notes[1].title, "Old");
    assert_eq!(notes[0].path, Some(String::from("/d/new.md")));
    assert_eq!(notes[0].id, "new.md");
}

#[test]
fn listing_ties_keep_scan_order() {
    let mut repo = Repository::new();
    let notes = repo
        .list_notes_files(
            &String::from("/d"),
            scan(&[
                ("a.md", "---\ntitle: A\nmodified: 7\n---\n\nx"),
                ("b.md", "---\ntitle: B\nmodified: 7\n---\n\nx"),
            ]),
            0,
        )
        .unwrap();
    assert_eq!(notes[0].title, "A");
    assert_eq!(notes[1].title, "B");
}

#[test]
fn headerless_files_fall_back_to_stem_and_scan_time() {
    let mut repo = Repository::new();
    let notes = repo
        .list_notes_files(
            &String::from("/d"),
            scan(&[("plain.md", "just some text")]),
            12345,
        )
        .unwrap();
    assert_eq!(notes.len(), 1);
    assert_eq!(notes[0].title, "plain");
    assert_eq!(notes[0].content, "just some text");
    assert!(notes[0].tags.is_empty());
    assert_eq!(notes[0].color, None);
    assert_eq!(notes[0].created_at, 12345);
    assert_eq!(notes[0].updated_at, 12345);
}

#[test]
fn scan_save_rescan_shows_updated_content() {
    let mut repo = Repository::new();
    let dir = String::from("/d");
    let first = repo
        .list_notes_files(
            &dir,
            scan(&[("a.md", "---\ntitle: Shopping\n---\n\nMilk, eggs")]),
            0,
        )
        .unwrap();
    assert_eq!(first.len(), 1);
    assert_eq!(first[0].title, "Shopping");
    assert_eq!(first[0].content, "Milk, eggs");
    let original_updated = first[0].updated_at;
    let (saved, markdown) = repo
        .prepare_save(&first[0].id, String::from("Milk, eggs, bread"), 777)
        .unwrap();
    repo.insert_note(saved);
    // the rewritten file is what a fresh scan of the directory now sees
    let second = repo
        .list_notes_files(&dir, scan(&[("a.md", markdown.as_str())]), 0)
        .unwrap();
    assert_eq!(second.len(), 1);
    assert_eq!(second[0].content, "Milk, eggs, bread");
    assert!(second[0].updated_at >= original_updated);
    assert_eq!(second[0].title, "Shopping");
}

#[test]
fn listing_twice_returns_the_same_notes_in_the_same_order() {
    let mut repo = Repository::new();
    let dir = String::from("/d");
    let entries = [
        ("a.md", "---\ntitle: A\nmodified: 5\n---\n\nx"),
        ("b.md", "---\ntitle: B\nmodified: 9\n---\n\ny"),
        ("c.md", "no header here"),
    ];
    let first = repo.list_notes_files(&dir, scan(&entries), 42).unwrap();
    let second = repo.list_notes_files(&dir, scan(&entries), 42).unwrap();
    assert_eq!(first, second);
}

#[test]
fn deleted_note_never_comes_back_from_a_rescan() {
    let mut repo = Repository::new();
    let dir = String::from("/d");
    let notes = repo
        .list_notes_files(
            &dir,
            scan(&[("keep.md", "---\ntitle: K\n---\n\nk"), ("gone.md", "---\ntitle: G\n---\n\ng")]),
            0,
        )
        .unwrap();
    assert_eq!(notes.len(), 2);
    let path = repo.prepare_delete(&String::from("gone.md")).unwrap();
    assert_eq!(path, "/d/gone.md");
    repo.delete_note(&String::from("gone.md")).unwrap();
    // the backing file is gone, so a rescan no longer hands the file over
    let after = repo
        .list_notes_files(&dir, scan(&[("keep.md", "---\ntitle: K\n---\n\nk")]), 0)
        .unwrap();
    assert!(after.iter().all(|n| n.id != "gone.md"));
    assert!(repo.list_notes().unwrap().iter().all(|n| n.id != "gone.md"));
}

#[test]
fn clock_reads_the_real_time() {
    let t = notas::repo::now_millis();
    // the epoch is long past: any sane clock gives a positive reading
    assert!(t > 0);
    let (note, _) = Repository::prepare_create(&String::from("/n"), &String::from("T"), t);
    assert_eq!(note.created_at, t);
}

#[test]
fn listing_reconciles_the_index() {
    let mut repo = Repository::new();
    repo.list_notes_files(
        &String::from("/d"),
        scan(&[("a.md", "---\ntitle: A\n---\n\nx")]),
        0,
    )
    .unwrap();
    let index = repo.list_notes().unwrap();
    assert_eq!(index.len(), 1);
    assert_eq!(index[0].id, "a.md");
}
