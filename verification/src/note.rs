//! The note entity: identifier, header metadata and body text.

use vstd::prelude::*;

verus! {

/// Mathematical value of a note: every field as a plain sequence or scalar.
#[verifier::ext_equal]
pub struct NoteView {
    pub id: Seq<char>,
    pub title: Seq<char>,
    pub content: Seq<char>,
    pub path: Option<Seq<char>>,
    pub created_at: u64,
    pub updated_at: u64,
    pub tags: Seq<Seq<char>>,
    pub color: Option<Seq<char>>,
}

/// A note: the unit of persisted content.
///
/// `id` is the backing file's name, unique within a directory; `path` is
/// `None` only for notes that have never been persisted.  Timestamps are
/// milliseconds since the Unix epoch, so numeric order equals chronological
/// order.
#[derive(Debug, Clone, PartialEq, Eq)]
pub struct Note {
    pub id: String,
    pub title: String,
    pub content: String,
    pub path: Option<String>,
    pub created_at: u64,
    pub updated_at: u64,
    pub tags: Vec<String>,
    pub color: Option<String>,
}

impl View for Note {
    type V = NoteView;

    open spec fn view(&self) -> NoteView {
        NoteView {
            id: self.id@,
            title: self.title@,
            content: self.content@,
            path: self.path.deep_view(),
            created_at: self.created_at,
            updated_at: self.updated_at,
            tags: self.tags.deep_view(),
            color: self.color.deep_view(),
        }
    }
}

impl DeepView for Note {
    type V = NoteView;

    open spec fn deep_view(&self) -> NoteView {
        self.view()
    }
}

/// An equal copy of a vector of strings.
pub fn clone_string_vec(v: &Vec<String>) -> (r: Vec<String>)
    ensures
        r@ == v@,
        r.deep_view() == v.deep_view(),
{
    let mut r: Vec<String> = Vec::new();
    let mut i: usize = 0;
    while i < v.len()
        invariant
            0 <= i <= v@.len(),
            r@.len() == i,
            forall|k: int| 0 <= k < i ==> r@[k] == v@[k],
        decreases v@.len() - i,
    {
        r.push(v[i].clone());
        i = i + 1;
    }
    assert(r@ =~= v@);
    assert(r.deep_view() =~~= v.deep_view());
    r
}

/// An equal copy of an optional string.
pub fn clone_opt_string(v: &Option<String>) -> (r: Option<String>)
    ensures
        r.deep_view() == v.deep_view(),
{
    match v {
        Some(s) => Some(s.clone()),
        None => None,
    }
}

impl Note {
    /// An equal copy of the note.
    pub fn duplicate(&self) -> (r: Note)
        ensures
            r@ == self@,
    {
        let r = Note {
            id: self.id.clone(),
            title: self.title.clone(),
            content: self.content.clone(),
            path: clone_opt_string(&self.path),
            created_at: self.created_at,
            updated_at: self.updated_at,
            tags: clone_string_vec(&self.tags),
            color: clone_opt_string(&self.color),
        };
        assert(r@ == self@);
        r
    }
}

} // verus!
