//! The note repository: owner of the in-memory index and the contracts of
//! every store operation.
//!
//! The index is a read-through cache over the filesystem.  The repository
//! computes exactly what each operation reads or writes; the caller performs
//! the filesystem work between a `prepare_*` call and the commit that
//! publishes its result, so no note enters the index before its backing file
//! write has completed.

use vstd::prelude::*;
use crate::codec::{spec_encode, spec_parse_frontmatter, create_markdown, parse_frontmatter};
use crate::naming::{
    spec_filename, spec_is_note_file, spec_file_stem, generate_filename, is_note_file, file_stem,
};
use crate::note::{Note, NoteView, clone_opt_string, clone_string_vec};
use crate::sort::{spec_sort_notes, sort_notes};
use crate::text::{to_chars, chars_to_string, append_chars};
use crate::trusted::clock_now_millis;

verus! {

broadcast use crate::text::lemma_chars_deep_view;

// ---------------------------------------------------------------------------
// Errors and plain data
// ---------------------------------------------------------------------------

/// Why a store operation failed.  Filesystem failures carry the offending
/// path and the underlying cause.
#[derive(Debug, Clone, PartialEq, Eq)]
pub enum StoreError {
    /// The directory to list does not exist.
    DirectoryNotFound { directory: String },
    /// The operation referenced an unknown identifier, or a note that has
    /// never been persisted.
    NotFound { id: String },
    /// A file could not be written.
    WriteError { path: String, cause: String },
    /// A file could not be read.
    ReadError { path: String, cause: String },
}

/// One candidate file found by a directory scan: its bare name and its full
/// text.
#[derive(Debug, Clone)]
pub struct ScannedFile {
    pub filename: String,
    pub content: String,
}

/// Mathematical value of a scanned file.
#[verifier::ext_equal]
pub struct ScanView {
    pub filename: Seq<char>,
    pub content: Seq<char>,
}

impl DeepView for ScannedFile {
    type V = ScanView;

    open spec fn deep_view(&self) -> ScanView {
        ScanView { filename: self.filename@, content: self.content@ }
    }
}

/// Configuration held by the repository: the active storage root.
#[derive(Debug, Clone)]
pub struct NotesConfig {
    pub notes_directory: Option<String>,
}

/// Mathematical value of a repository: the index, if initialized, and the
/// configured directory.
#[verifier::ext_equal]
pub struct RepoView {
    pub notes: Option<Seq<NoteView>>,
    pub directory: Option<Seq<char>>,
}

/// The note repository.  It exclusively owns the index; every operation that
/// reads or mutates the index goes through it.
pub struct Repository {
    notes: Option<Vec<Note>>,
    config: NotesConfig,
}

impl View for Repository {
    type V = RepoView;

    closed spec fn view(&self) -> RepoView {
        RepoView {
            notes: match self.notes {
                Some(ref v) => Some(v.deep_view()),
                None => None,
            },
            directory: self.config.notes_directory.deep_view(),
        }
    }
}

// ---------------------------------------------------------------------------
// The index model
// ---------------------------------------------------------------------------

/// No two notes of `s` share an identifier.
pub open spec fn spec_ids_distinct(s: Seq<NoteView>) -> bool {
    forall|i: int, j: int| 0 <= i < j < s.len() ==> s[i].id != s[j].id
}

/// The index contents once initialized: the empty index where none existed.
pub open spec fn spec_init_notes(o: Option<Seq<NoteView>>) -> Seq<NoteView> {
    match o {
        Some(s) => s,
        None => Seq::<NoteView>::empty(),
    }
}

/// Position of the note with identifier `id`, if present.
pub open spec fn spec_find_note(s: Seq<NoteView>, id: Seq<char>) -> Option<int>
    decreases s.len(),
{
    if s.len() == 0 {
        None
    } else if s[0].id == id {
        Some(0)
    } else {
        match spec_find_note(s.drop_first(), id) {
            None => None,
            Some(i) => Some(i + 1),
        }
    }
}

/// `s` holds a note with identifier `id`.
pub open spec fn spec_has_note(s: Seq<NoteView>, id: Seq<char>) -> bool {
    spec_find_note(s, id) is Some
}

/// `n` written into the index: replacing the entry with its identifier, or
/// appended when the identifier is new.
pub open spec fn spec_insert_note(s: Seq<NoteView>, n: NoteView) -> Seq<NoteView> {
    match spec_find_note(s, n.id) {
        Some(i) => s.update(i, n),
        None => s.push(n),
    }
}

/// The index without the note with identifier `id`, if it was there.
pub open spec fn spec_remove_note(s: Seq<NoteView>, id: Seq<char>) -> Seq<NoteView> {
    match spec_find_note(s, id) {
        Some(i) => s.remove(i),
        None => s,
    }
}

/// What a successful find means: the identifier matches at the found
/// position and nowhere earlier; a failed find means it matches nowhere.
pub proof fn lemma_find_note_props(s: Seq<NoteView>, id: Seq<char>)
    ensures
        (match spec_find_note(s, id) {
            Some(i) => 0 <= i < s.len() && s[i].id == id && (forall|k: int|
                0 <= k < i ==> s[k].id != id),
            None => forall|k: int| 0 <= k < s.len() ==> s[k].id != id,
        }),
    decreases s.len(),
{
    if s.len() > 0 && s[0].id != id {
        let d = s.drop_first();
        lemma_find_note_props(d, id);
        assert(forall|k: int| 0 <= k < d.len() ==> d[k] == s[k + 1]);
        match spec_find_note(d, id) {
            Some(i) => {
                assert(spec_find_note(s, id) == Some(i + 1));
                assert(s[i + 1].id == id);
                assert forall|k: int| 0 <= k < i + 1 implies s[k].id != id by {
                    if k > 0 {
                        assert(d[k - 1].id != id);
                    }
                }
            },
            None => {
                assert forall|k: int| 0 <= k < s.len() implies s[k].id != id by {
                    if k > 0 {
                        assert(d[k - 1].id != id);
                    }
                }
            },
        }
    }
}

/// A match at `i` with no earlier match is what the find returns.
pub proof fn lemma_find_note_at(s: Seq<NoteView>, id: Seq<char>, i: int)
    requires
        0 <= i < s.len(),
        s[i].id == id,
        forall|k: int| 0 <= k < i ==> s[k].id != id,
    ensures
        spec_find_note(s, id) == Some(i),
    decreases i,
{
    if i > 0 {
        lemma_find_note_at(s.drop_first(), id, i - 1);
    }
}

/// No match anywhere means the find fails.
pub proof fn lemma_find_note_none(s: Seq<NoteView>, id: Seq<char>)
    requires
        forall|k: int| 0 <= k < s.len() ==> s[k].id != id,
    ensures
        spec_find_note(s, id) is None,
    decreases s.len(),
{
    if s.len() > 0 {
        lemma_find_note_none(s.drop_first(), id);
    }
}

/// Writing a note keeps identifiers distinct, stores the note under its
/// identifier, and touches no other entry.
pub proof fn lemma_insert_note_props(s: Seq<NoteView>, n: NoteView)
    requires
        spec_ids_distinct(s),
    ensures
        spec_ids_distinct(spec_insert_note(s, n)),
        spec_has_note(spec_insert_note(s, n), n.id),
    decreases s.len(),
{
    lemma_find_note_props(s, n.id);
    let r = spec_insert_note(s, n);
    match spec_find_note(s, n.id) {
        Some(i) => {
            assert(r[i] == n);
            lemma_find_note_at(r, n.id, i);
        },
        None => {
            assert(r[s.len() as int] == n);
            lemma_find_note_at(r, n.id, s.len() as int);
        },
    }
}

/// Removing an identifier keeps the rest distinct and leaves no note under
/// that identifier.
pub proof fn lemma_remove_note_props(s: Seq<NoteView>, id: Seq<char>)
    requires
        spec_ids_distinct(s),
    ensures
        spec_ids_distinct(spec_remove_note(s, id)),
        !spec_has_note(spec_remove_note(s, id), id),
{
    lemma_find_note_props(s, id);
    let r = spec_remove_note(s, id);
    match spec_find_note(s, id) {
        Some(i) => {
            assert forall|k: int| 0 <= k < r.len() implies r[k].id != id by {
                if k < i {
                    assert(r[k] == s[k]);
                } else {
                    assert(r[k] == s[k + 1]);
                }
            }
            lemma_find_note_none(r, id);
        },
        None => {
            lemma_find_note_none(r, id);
        },
    }
}

/// Position of the note with identifier `id` in `notes`, matching
/// `spec_find_note`.
fn find_note_index(notes: &Vec<Note>, id: &String) -> (r: Option<usize>)
    ensures
        (match r {
            Some(i) => spec_find_note(notes.deep_view(), id@) == Some(i as int) && i
                < notes@.len(),
            None => spec_find_note(notes.deep_view(), id@) is None,
        }),
{
    let mut i: usize = 0;
    while i < notes.len()
        invariant
            0 <= i <= notes@.len(),
            notes.deep_view().len() == notes@.len(),
            forall|k: int| 0 <= k < i ==> notes.deep_view()[k].id != id@,
        decreases notes@.len() - i,
    {
        if notes[i].id == *id {
            proof {
                assert(notes.deep_view()[i as int].id == id@);
                lemma_find_note_at(notes.deep_view(), id@, i as int);
            }
            return Some(i);
        }
        i = i + 1;
    }
    proof {
        lemma_find_note_none(notes.deep_view(), id@);
    }
    None
}

/// Writes `note` into the vector as `spec_insert_note`.
fn insert_into_vec(notes: &mut Vec<Note>, note: Note)
    ensures
        final(notes).deep_view() == spec_insert_note(old(notes).deep_view(), note@),
{
    let found = find_note_index(notes, &note.id);
    match found {
        Some(i) => {
            let ghost before = notes.deep_view();
            notes.set(i, note);
            assert(notes.deep_view() =~~= before.update(i as int, note@));
        },
        None => {
            let ghost before = notes.deep_view();
            notes.push(note);
            assert(notes.deep_view() =~~= before.push(note@));
        },
    }
}

// ---------------------------------------------------------------------------
// Decoding a scan
// ---------------------------------------------------------------------------

/// The backing path of a note file inside the directory.
pub open spec fn spec_join_path(dir: Seq<char>, name: Seq<char>) -> Seq<char> {
    dir + seq!['/'] + name
}

/// One scanned file decoded into a note.  A document with a header takes its
/// fields from it; any other text is all body, with the file stem as title
/// and the scan time as both timestamps.  Either way the identifier is the
/// file name and the path records where the file lies.
pub open spec fn spec_decode_file(dir: Seq<char>, f: ScanView, now: u64) -> NoteView {
    match spec_parse_frontmatter(f.content) {
        Some(p) => NoteView {
            id: f.filename,
            title: p.0.title,
            content: p.1,
            path: Some(spec_join_path(dir, f.filename)),
            created_at: p.0.created,
            updated_at: p.0.modified,
            tags: p.0.tags,
            color: p.0.color,
        },
        None => NoteView {
            id: f.filename,
            title: spec_file_stem(f.filename),
            content: f.content,
            path: Some(spec_join_path(dir, f.filename)),
            created_at: now,
            updated_at: now,
            tags: Seq::<Seq<char>>::empty(),
            color: None,
        },
    }
}

/// The scanned files that are note files, decoded in scan order.
pub open spec fn spec_scan_decode(dir: Seq<char>, files: Seq<ScanView>, now: u64) -> Seq<NoteView>
    decreases files.len(),
{
    if files.len() == 0 {
        Seq::<NoteView>::empty()
    } else {
        (if spec_is_note_file(files[0].filename) {
            seq![spec_decode_file(dir, files[0], now)]
        } else {
            Seq::<NoteView>::empty()
        }) + spec_scan_decode(dir, files.drop_first(), now)
    }
}

/// The decoded notes written into the index one by one, in scan order.
pub open spec fn spec_scan_into(s: Seq<NoteView>, notes: Seq<NoteView>) -> Seq<NoteView>
    decreases notes.len(),
{
    if notes.len() == 0 {
        s
    } else {
        spec_scan_into(spec_insert_note(s, notes[0]), notes.drop_first())
    }
}

/// No two scanned files share a name.
pub open spec fn spec_filenames_distinct(files: Seq<ScanView>) -> bool {
    forall|i: int, j: int| 0 <= i < j < files.len() ==> files[i].filename != files[j].filename
}

/// Decoded notes take their identifiers from the scanned file names, so
/// distinct names give distinct identifiers, and every decoded identifier is
/// a scanned name.
pub proof fn lemma_scan_decode_ids(dir: Seq<char>, files: Seq<ScanView>, now: u64)
    requires
        spec_filenames_distinct(files),
    ensures
        spec_ids_distinct(spec_scan_decode(dir, files, now)),
        forall|k: int| 0 <= k < spec_scan_decode(dir, files, now).len() ==> (exists|m: int|
            0 <= m < files.len() && files[m].filename == #[trigger] spec_scan_decode(
                dir,
                files,
                now,
            )[k].id),
    decreases files.len(),
{
    if files.len() > 0 {
        let d = files.drop_first();
        assert(spec_filenames_distinct(d));
        lemma_scan_decode_ids(dir, d, now);
        let rd = spec_scan_decode(dir, d, now);
        let r = spec_scan_decode(dir, files, now);
        if spec_is_note_file(files[0].filename) {
            assert(r[0].id == files[0].filename);
            assert forall|k: int| 0 <= k < r.len() implies (exists|m: int|
                0 <= m < files.len() && files[m].filename == #[trigger] r[k].id) by {
                if k == 0 {
                    assert(files[0].filename == r[0].id);
                } else {
                    let m = choose|m: int| 0 <= m < d.len() && d[m].filename == rd[k - 1].id;
                    assert(files[m + 1].filename == r[k].id);
                }
            }
            assert forall|i: int, j: int| 0 <= i < j < r.len() implies r[i].id != r[j].id by {
                if i == 0 {
                    let m = choose|m: int| 0 <= m < d.len() && d[m].filename == rd[j - 1].id;
                    assert(files[m + 1].filename == r[j].id);
                    assert(files[0].filename != files[m + 1].filename);
                } else {
                    assert(rd[i - 1].id != rd[j - 1].id);
                }
            }
        } else {
            assert(r =~= rd);
            assert forall|k: int| 0 <= k < r.len() implies (exists|m: int|
                0 <= m < files.len() && files[m].filename == #[trigger] r[k].id) by {
                let m = choose|m: int| 0 <= m < d.len() && d[m].filename == rd[k].id;
                assert(files[m + 1].filename == r[k].id);
            }
        }
    }
}

/// Folding notes with distinct identifiers into a distinct index keeps it
/// distinct.
pub proof fn lemma_scan_into_distinct(s: Seq<NoteView>, notes: Seq<NoteView>)
    requires
        spec_ids_distinct(s),
    ensures
        spec_ids_distinct(spec_scan_into(s, notes)),
    decreases notes.len(),
{
    if notes.len() > 0 {
        lemma_insert_note_props(s, notes[0]);
        lemma_scan_into_distinct(spec_insert_note(s, notes[0]), notes.drop_first());
    }
}

/// Joins a directory and a file name, matching `spec_join_path`.
fn join_path(dir: &String, name: &String) -> (r: String)
    ensures
        r@ == spec_join_path(dir@, name@),
{
    let mut v = to_chars(dir.as_str());
    v.push('/');
    let nv = to_chars(name.as_str());
    append_chars(&mut v, &nv);
    assert(v@ =~= spec_join_path(dir@, name@));
    chars_to_string(&v)
}

/// Decodes one scanned file, matching `spec_decode_file`.
fn decode_file(directory: &String, f: &ScannedFile, now_millis: u64) -> (r: Note)
    ensures
        r@ == spec_decode_file(directory@, f.deep_view(), now_millis),
{
    match parse_frontmatter(f.content.as_str()) {
        Some((fm, body)) => {
            let r = Note {
                id: f.filename.clone(),
                title: fm.title,
                content: body,
                path: Some(join_path(directory, &f.filename)),
                created_at: fm.created,
                updated_at: fm.modified,
                tags: fm.tags,
                color: fm.color,
            };
            assert(r@ == spec_decode_file(directory@, f.deep_view(), now_millis));
            r
        },
        None => {
            let r = Note {
                id: f.filename.clone(),
                title: file_stem(&f.filename),
                content: f.content.clone(),
                path: Some(join_path(directory, &f.filename)),
                created_at: now_millis,
                updated_at: now_millis,
                tags: Vec::new(),
                color: None,
            };
            assert(r@ =~= spec_decode_file(directory@, f.deep_view(), now_millis));
            r
        },
    }
}

/// An equal copy of a vector of notes.
fn clone_notes(v: &Vec<Note>) -> (r: Vec<Note>)
    ensures
        r.deep_view() == v.deep_view(),
{
    let mut r: Vec<Note> = Vec::new();
    let mut i: usize = 0;
    while i < v.len()
        invariant
            0 <= i <= v@.len(),
            r@.len() == i,
            forall|k: int| 0 <= k < i ==> r@[k]@ == v@[k]@,
        decreases v@.len() - i,
    {
        let n = v[i].duplicate();
        r.push(n);
        i = i + 1;
    }
    assert(r.deep_view() =~= v.deep_view());
    r
}

// ---------------------------------------------------------------------------
// The clock
// ---------------------------------------------------------------------------

/// The current time in milliseconds since the Unix epoch, clamped at zero.
/// Nothing is guaranteed of the clock; every operation taking a timestamp is
/// verified for all values.
pub fn now_millis() -> u64 {
    let t = clock_now_millis();
    if t < 0 {
        0u64
    } else {
        t as u64
    }
}

/// The newer of two timestamps.
pub open spec fn spec_later(a: u64, b: u64) -> u64 {
    if a >= b {
        a
    } else {
        b
    }
}

// ---------------------------------------------------------------------------
// The repository operations
// ---------------------------------------------------------------------------

impl Repository {
    /// Identifiers in the index are unique.
    pub open spec fn wf(self) -> bool {
        match self@.notes {
            Some(s) => spec_ids_distinct(s),
            None => true,
        }
    }

    /// A repository with no index and no configured directory.
    pub fn new() -> (r: Repository)
        ensures
            r@.notes is None,
            r@.directory is None,
            r.wf(),
    {
        Repository { notes: None, config: NotesConfig { notes_directory: None } }
    }

    /// Gives the repository its empty index and default configuration where
    /// none exist yet; an existing index and configuration are untouched.
    pub fn ensure_initialized(&mut self)
        ensures
            final(self)@.notes == Some(spec_init_notes(old(self)@.notes)),
            final(self)@.directory == old(self)@.directory,
            old(self).wf() ==> final(self).wf(),
    {
        let missing = match &self.notes {
            None => true,
            Some(_) => false,
        };
        if missing {
            self.notes = Some(Vec::new());
            assert(self@.notes == Some(spec_init_notes(old(self)@.notes)));
        }
    }

    /// The in-memory index, as it stands.
    pub fn get_notes_store(&self) -> (r: &Option<Vec<Note>>)
        ensures
            (match r {
                Some(v) => self@.notes == Some(v.deep_view()),
                None => self@.notes is None,
            }),
    {
        &self.notes
    }

    /// The configuration, as it stands.
    pub fn get_config_store(&self) -> (r: &NotesConfig)
        ensures
            r.notes_directory.deep_view() == self@.directory,
    {
        &self.config
    }

    /// The configured storage root, if any.
    pub fn get_notes_directory(&mut self) -> (r: Result<Option<String>, StoreError>)
        ensures
            final(self)@.notes == Some(spec_init_notes(old(self)@.notes)),
            final(self)@.directory == old(self)@.directory,
            old(self).wf() ==> final(self).wf(),
            (r matches Ok(d) && d.deep_view() == old(self)@.directory),
    {
        self.ensure_initialized();
        Ok(clone_opt_string(&self.config.notes_directory))
    }

    /// Records the storage root for subsequent operations; does not scan.
    pub fn set_notes_directory(&mut self, directory: String) -> (r: Result<(), StoreError>)
        ensures
            final(self)@.notes == Some(spec_init_notes(old(self)@.notes)),
            final(self)@.directory == Some(directory@),
            old(self).wf() ==> final(self).wf(),
            r is Ok,
    {
        self.ensure_initialized();
        self.config.notes_directory = Some(directory);
        Ok(())
    }

    /// The notes of the index, in insertion order.
    pub fn list_notes(&mut self) -> (r: Result<Vec<Note>, StoreError>)
        ensures
            final(self)@.notes == Some(spec_init_notes(old(self)@.notes)),
            final(self)@.directory == old(self)@.directory,
            old(self).wf() ==> final(self).wf(),
            (r matches Ok(v) && v.deep_view() == spec_init_notes(old(self)@.notes)),
    {
        self.ensure_initialized();
        match &self.notes {
            Some(v) => Ok(clone_notes(v)),
            None => {
                assert(false);
                Err(StoreError::NotFound { id: String::new() })
            },
        }
    }

    /// Writes `note` into the index: replaces the entry with its identifier,
    /// or appends it.
    pub fn insert_note(&mut self, note: Note)
        requires
            old(self).wf(),
        ensures
            final(self)@.notes == Some(
                spec_insert_note(spec_init_notes(old(self)@.notes), note@),
            ),
            final(self)@.directory == old(self)@.directory,
            final(self).wf(),
    {
        proof {
            lemma_insert_note_props(spec_init_notes(old(self)@.notes), note@);
        }
        self.ensure_initialized();
        match &mut self.notes {
            Some(v) => insert_into_vec(v, note),
            None => {
                assert(false);
            },
        }
    }

    /// Writes `note` into the index (the in-memory save of a note that is
    /// not persisted here).
    pub fn save_note(&mut self, note: Note) -> (r: Result<(), StoreError>)
        requires
            old(self).wf(),
        ensures
            final(self)@.notes == Some(
                spec_insert_note(spec_init_notes(old(self)@.notes), note@),
            ),
            final(self)@.directory == old(self)@.directory,
            final(self).wf(),
            r is Ok,
    {
        self.insert_note(note);
        Ok(())
    }

    /// Removes the note with identifier `id` from the index; removing an
    /// absent identifier is not an error.
    pub fn delete_note(&mut self, id: &String) -> (r: Result<(), StoreError>)
        requires
            old(self).wf(),
        ensures
            final(self)@.notes == Some(
                spec_remove_note(spec_init_notes(old(self)@.notes), id@),
            ),
            final(self)@.directory == old(self)@.directory,
            final(self).wf(),
            !spec_has_note(spec_init_notes(final(self)@.notes), id@),
            r is Ok,
    {
        proof {
            lemma_remove_note_props(spec_init_notes(old(self)@.notes), id@);
        }
        self.ensure_initialized();
        match &mut self.notes {
            Some(v) => {
                let found = find_note_index(v, id);
                match found {
                    Some(i) => {
                        let ghost before = v.deep_view();
                        v.remove(i);
                        assert(v.deep_view() =~~= before.remove(i as int));
                    },
                    None => {},
                }
            },
            None => {
                assert(false);
            },
        }
        Ok(())
    }

    /// Builds the note and document for a creation: a fresh identity from
    /// the title and creation time, empty content, both timestamps set to
    /// the creation time.  The caller writes the document to the note's path
    /// and, once the write has succeeded, publishes the note with
    /// [`Repository::insert_note`].
    pub fn prepare_create(directory: &String, title: &String, now_millis: u64) -> (r: (
        Note,
        String,
    ))
        ensures
            r.0@ == spec_new_note(directory@, title@, now_millis),
            r.1@ == spec_encode(r.0@),
            r.0@.path == Some(spec_join_path(directory@, spec_filename(title@, now_millis))),
    {
        let filename = generate_filename(title, now_millis);
        let path = join_path(directory, &filename);
        let note = Note {
            id: filename,
            title: title.clone(),
            content: String::new(),
            path: Some(path),
            created_at: now_millis,
            updated_at: now_millis,
            tags: Vec::new(),
            color: None,
        };
        let markdown = create_markdown(&note);
        assert(note@ =~= spec_new_note(directory@, title@, now_millis));
        (note, markdown)
    }

    /// Builds the updated note and document for a save: content replaced,
    /// `updated_at` moved forward, every other field kept from the index.
    /// Fails with `NotFound` exactly when the identifier is absent or the
    /// note has never been persisted.  The repository itself is untouched;
    /// the caller writes the document to the note's path and, once the write
    /// has succeeded, publishes the note with [`Repository::insert_note`].
    pub fn prepare_save(&self, id: &String, content: String, now_millis: u64) -> (r: Result<
        (Note, String),
        StoreError,
    >)
        ensures
            (match spec_find_note(spec_init_notes(self@.notes), id@) {
                None => (r matches Err(e) && e matches StoreError::NotFound { id: e_id }
                    && e_id@ == id@),
                Some(i) => {
                    let cur = spec_init_notes(self@.notes)[i];
                    match cur.path {
                        None => (r matches Err(e) && e matches StoreError::NotFound { id: e_id }
                            && e_id@ == id@),
                        Some(_) => (r matches Ok(p) && p.0@ == NoteView {
                            content: content@,
                            updated_at: spec_later(now_millis, cur.updated_at),
                            ..cur
                        } && p.1@ == spec_encode(p.0@) && p.0@.updated_at >= cur.updated_at),
                    }
                },
            }),
    {
        let notes = match &self.notes {
            Some(v) => v,
            None => {
                return Err(StoreError::NotFound { id: id.clone() });
            },
        };
        let found = find_note_index(notes, id);
        let i = match found {
            Some(i) => i,
            None => {
                return Err(StoreError::NotFound { id: id.clone() });
            },
        };
        let base = &notes[i];
        match &base.path {
            None => Err(StoreError::NotFound { id: id.clone() }),
            Some(_) => {
                let updated_at = if now_millis >= base.updated_at {
                    now_millis
                } else {
                    base.updated_at
                };
                let note = Note {
                    id: base.id.clone(),
                    title: base.title.clone(),
                    content,
                    path: clone_opt_string(&base.path),
                    created_at: base.created_at,
                    updated_at,
                    tags: clone_string_vec(&base.tags),
                    color: clone_opt_string(&base.color),
                };
                let ghost cur = spec_init_notes(self@.notes)[i as int];
                assert(note@ =~= (NoteView {
                    content: note@.content,
                    updated_at: note@.updated_at,
                    ..cur
                }));
                let markdown = create_markdown(&note);
                Ok((note, markdown))
            },
        }
    }

    /// The path of the note to delete.  Fails with `NotFound` exactly when
    /// the identifier is absent or the note has never been persisted.  The
    /// caller removes the file and, only once the removal has succeeded,
    /// removes the entry with [`Repository::delete_note`]; a failed removal
    /// must leave the index entry in place.
    pub fn prepare_delete(&self, id: &String) -> (r: Result<String, StoreError>)
        ensures
            (match spec_find_note(spec_init_notes(self@.notes), id@) {
                None => (r matches Err(e) && e matches StoreError::NotFound { id: e_id }
                    && e_id@ == id@),
                Some(i) => {
                    let cur = spec_init_notes(self@.notes)[i];
                    match cur.path {
                        None => (r matches Err(e) && e matches StoreError::NotFound { id: e_id }
                            && e_id@ == id@),
                        Some(p) => (r matches Ok(path) && path@ == p),
                    }
                },
            }),
    {
        let notes = match &self.notes {
            Some(v) => v,
            None => {
                return Err(StoreError::NotFound { id: id.clone() });
            },
        };
        let found = find_note_index(notes, id);
        let i = match found {
            Some(i) => i,
            None => {
                return Err(StoreError::NotFound { id: id.clone() });
            },
        };
        match &notes[i].path {
            None => Err(StoreError::NotFound { id: id.clone() }),
            Some(p) => Ok(p.clone()),
        }
    }

    /// Reconciles a directory scan into the index and returns the notes of
    /// the scan ordered newest first.
    ///
    /// The caller enumerates the directory and hands over each entry's name
    /// and text (`None` when the directory does not exist; files it could
    /// not read are simply left out, so one bad file never aborts the
    /// listing).  Only files with the note extension are considered; each
    /// decodes totally, headerless text falling back to a body-only note
    /// stamped `now_millis`.
    pub fn list_notes_files(
        &mut self,
        directory: &String,
        scan: Option<Vec<ScannedFile>>,
        now_millis: u64,
    ) -> (r: Result<Vec<Note>, StoreError>)
        requires
            old(self).wf(),
            (match scan {
                Some(files) => spec_filenames_distinct(files.deep_view()),
                None => true,
            }),
        ensures
            final(self)@.directory == old(self)@.directory,
            final(self).wf(),
            (match scan {
                None => {
                    &&& (r matches Err(e) && e matches StoreError::DirectoryNotFound {
                        directory: d,
                    } && d@ == directory@)
                    &&& final(self)@.notes == Some(spec_init_notes(old(self)@.notes))
                },
                Some(files) => {
                    let decoded = spec_scan_decode(directory@, files.deep_view(), now_millis);
                    &&& (r matches Ok(v) && v.deep_view() == spec_sort_notes(decoded)
                        && crate::sort::spec_sorted_desc(v.deep_view()))
                    &&& final(self)@.notes == Some(
                        spec_scan_into(spec_init_notes(old(self)@.notes), decoded),
                    )
                },
            }),
    {
        self.ensure_initialized();
        let files = match scan {
            None => {
                return Err(StoreError::DirectoryNotFound { directory: directory.clone() });
            },
            Some(files) => files,
        };
        let ghost fv = files.deep_view();
        let ghost decoded_spec = spec_scan_decode(directory@, fv, now_millis);
        let mut decoded: Vec<Note> = Vec::new();
        let mut i: usize = 0;
        proof {
            assert(fv.subrange(0, fv.len() as int) =~= fv);
            assert(decoded.deep_view() + spec_scan_decode(
                directory@,
                fv.subrange(0, fv.len() as int),
                now_millis,
            ) =~= decoded_spec);
        }
        while i < files.len()
            invariant
                0 <= i <= files@.len(),
                fv == files.deep_view(),
                fv.len() == files@.len(),
                decoded_spec == spec_scan_decode(directory@, fv, now_millis),
                decoded.deep_view() + spec_scan_decode(
                    directory@,
                    fv.subrange(i as int, fv.len() as int),
                    now_millis,
                ) =~= decoded_spec,
            decreases files@.len() - i,
        {
            let ghost rest = fv.subrange(i as int, fv.len() as int);
            proof {
                assert(rest[0] == fv[i as int]);
                assert(rest.drop_first() =~= fv.subrange(i as int + 1, fv.len() as int));
            }
            if is_note_file(&files[i].filename) {
                let n = decode_file(directory, &files[i], now_millis);
                decoded.push(n);
            }
            i = i + 1;
            assert(decoded.deep_view() + spec_scan_decode(
                directory@,
                fv.subrange(i as int, fv.len() as int),
                now_millis,
            ) =~= decoded_spec);
        }
        proof {
            assert(fv.subrange(fv.len() as int, fv.len() as int) =~= Seq::<ScanView>::empty());
            assert(decoded.deep_view() =~= decoded_spec);
            lemma_scan_decode_ids(directory@, fv, now_millis);
        }
        // publish every decoded note into the index, in scan order
        let ghost index0 = spec_init_notes(self@.notes);
        match &mut self.notes {
            Some(v) => {
                let ghost dv = decoded.deep_view();
                let mut k: usize = 0;
                proof {
                    assert(dv.subrange(0, dv.len() as int) =~= dv);
                    assert(dv.subrange(0 as int, dv.len() as int) == dv);
                }
                while k < decoded.len()
                    invariant
                        0 <= k <= decoded@.len(),
                        dv == decoded.deep_view(),
                        dv.len() == decoded@.len(),
                        spec_ids_distinct(v.deep_view()),
                        spec_scan_into(v.deep_view(), dv.subrange(k as int, dv.len() as int))
                            == spec_scan_into(index0, dv),
                    decreases decoded@.len() - k,
                {
                    let ghost rest = dv.subrange(k as int, dv.len() as int);
                    proof {
                        assert(rest[0] == dv[k as int]);
                        assert(rest.drop_first() =~= dv.subrange(k as int + 1, dv.len() as int));
                        lemma_insert_note_props(v.deep_view(), dv[k as int]);
                    }
                    let n = decoded[k].duplicate();
                    insert_into_vec(v, n);
                    k = k + 1;
                }
                proof {
                    assert(dv.subrange(dv.len() as int, dv.len() as int) =~= Seq::<
                        NoteView,
                    >::empty());
                }
            },
            None => {
                assert(false);
            },
        }
        let result = sort_notes(decoded);
        proof {
            crate::sort::lemma_sort_notes_sorted(decoded_spec);
        }
        Ok(result)
    }
}

/// The note a creation builds: fresh identity from title and time, empty
/// content, both timestamps the creation time, no tags, no color, path
/// inside the chosen directory.
pub open spec fn spec_new_note(dir: Seq<char>, title: Seq<char>, now: u64) -> NoteView {
    NoteView {
        id: spec_filename(title, now),
        title: title,
        content: Seq::<char>::empty(),
        path: Some(spec_join_path(dir, spec_filename(title, now))),
        created_at: now,
        updated_at: now,
        tags: Seq::<Seq<char>>::empty(),
        color: None,
    }
}

} // verus!
