//! The frontmatter codec: the bidirectional mapping between a note's
//! structured fields and a single text blob with a delimited header.
//!
//! A document begins with a `---` line, followed by `key: value` lines,
//! a closing `---` line, one blank line, and the body.  Decoding is total:
//! a document without a well-formed header is all body, and malformed
//! values fall back to defaults rather than failing.

use vstd::prelude::*;
use crate::digits::{
    spec_parse_u64_or_zero, spec_u64_digits, parse_u64_or_zero, u64_to_chars,
};
use crate::note::{Note, NoteView};
use crate::text::{
    spec_find_char_from, spec_find_delim_from, spec_is_delim_at, spec_split_char, spec_trim,
    find_char_from, find_delim_from, split_char_vec, subrange_chars, to_chars, trim_chars,
    chars_to_string, eq_chars, append_chars,
};

verus! {

broadcast use crate::text::lemma_chars_deep_view;

// ---------------------------------------------------------------------------
// Recognized header keys and fixed pieces of the encoded form
// ---------------------------------------------------------------------------

pub open spec fn key_title() -> Seq<char> {
    seq!['t', 'i', 't', 'l', 'e']
}

pub open spec fn key_created() -> Seq<char> {
    seq!['c', 'r', 'e', 'a', 't', 'e', 'd']
}

pub open spec fn key_modified() -> Seq<char> {
    seq!['m', 'o', 'd', 'i', 'f', 'i', 'e', 'd']
}

pub open spec fn key_tags() -> Seq<char> {
    seq!['t', 'a', 'g', 's']
}

pub open spec fn key_color() -> Seq<char> {
    seq!['c', 'o', 'l', 'o', 'r']
}

/// `"---\ntitle: "`, the opening delimiter and first key.
pub open spec fn lit_open() -> Seq<char> {
    seq!['-', '-', '-', '\n', 't', 'i', 't', 'l', 'e', ':', ' ']
}

/// `"\ncreated: "`.
pub open spec fn lit_created() -> Seq<char> {
    seq!['\n', 'c', 'r', 'e', 'a', 't', 'e', 'd', ':', ' ']
}

/// `"\nmodified: "`.
pub open spec fn lit_modified() -> Seq<char> {
    seq!['\n', 'm', 'o', 'd', 'i', 'f', 'i', 'e', 'd', ':', ' ']
}

/// `"\ntags: ["`.
pub open spec fn lit_tags() -> Seq<char> {
    seq!['\n', 't', 'a', 'g', 's', ':', ' ', '[']
}

/// `"]\n"`.
pub open spec fn lit_tags_close() -> Seq<char> {
    seq![']', '\n']
}

/// `"color: "`.
pub open spec fn lit_color() -> Seq<char> {
    seq!['c', 'o', 'l', 'o', 'r', ':', ' ']
}

/// `"\n"`.
pub open spec fn lit_nl() -> Seq<char> {
    seq!['\n']
}

/// `"---\n\n"`, the closing delimiter and the blank line before the body.
pub open spec fn lit_close() -> Seq<char> {
    seq!['-', '-', '-', '\n', '\n']
}

/// `", "`, the separator between rendered tags.
pub open spec fn lit_sep() -> Seq<char> {
    seq![',', ' ']
}

// ---------------------------------------------------------------------------
// Encoding
// ---------------------------------------------------------------------------

/// The tags joined by `", "`.
pub open spec fn spec_join_tags(tags: Seq<Seq<char>>) -> Seq<char>
    decreases tags.len(),
{
    if tags.len() == 0 {
        Seq::<char>::empty()
    } else if tags.len() == 1 {
        tags[0]
    } else {
        spec_join_tags(tags.drop_last()) + lit_sep() + tags.last()
    }
}

/// The `color:` line, present exactly when a color is set.
pub open spec fn spec_color_part(color: Option<Seq<char>>) -> Seq<char> {
    match color {
        None => Seq::<char>::empty(),
        Some(c) => lit_color() + c + lit_nl(),
    }
}

/// The full encoded document for a note: delimited header in fixed key
/// order, one blank line, then the body.
pub open spec fn spec_encode(n: NoteView) -> Seq<char> {
    lit_open() + n.title + lit_created() + spec_u64_digits(n.created_at as nat) + lit_modified()
        + spec_u64_digits(n.updated_at as nat) + lit_tags() + spec_join_tags(n.tags)
        + lit_tags_close() + spec_color_part(n.color) + lit_close() + n.content
}

// ---------------------------------------------------------------------------
// Decoding
// ---------------------------------------------------------------------------

/// Mathematical value of a decoded header.
#[verifier::ext_equal]
pub struct FmView {
    pub title: Seq<char>,
    pub created: u64,
    pub modified: u64,
    pub tags: Seq<Seq<char>>,
    pub color: Option<Seq<char>>,
}

/// Header fields before any line has been read.
pub open spec fn spec_fm_default() -> FmView {
    FmView {
        title: Seq::<char>::empty(),
        created: 0,
        modified: 0,
        tags: Seq::<Seq<char>>::empty(),
        color: None,
    }
}

/// The trimmed, nonempty pieces of a comma-separated list.
pub open spec fn spec_tags_list(parts: Seq<Seq<char>>) -> Seq<Seq<char>>
    decreases parts.len(),
{
    if parts.len() == 0 {
        Seq::<Seq<char>>::empty()
    } else {
        let t = spec_trim(parts[0]);
        (if t.len() > 0 {
            seq![t]
        } else {
            Seq::<Seq<char>>::empty()
        }) + spec_tags_list(parts.drop_first())
    }
}

/// A bracketed, comma-separated tag list; anything else decodes to no tags.
pub open spec fn spec_parse_tags(v: Seq<char>) -> Seq<Seq<char>> {
    if v.len() >= 2 && v[0] == '[' && v[v.len() - 1] == ']' {
        spec_tags_list(spec_split_char(v.subrange(1, v.len() - 1), ','))
    } else {
        Seq::<Seq<char>>::empty()
    }
}

/// One `key: value` header line folded into the fields; unknown keys and
/// lines without a separator are ignored, later lines win.
pub open spec fn spec_apply_line(fm: FmView, line: Seq<char>) -> FmView {
    match spec_find_char_from(line, 0, ':') {
        None => fm,
        Some(i) => if i < line.len() {
            let key = spec_trim(line.subrange(0, i as int));
            let value = spec_trim(line.subrange(i as int + 1, line.len() as int));
            if key == key_title() {
                FmView { title: value, ..fm }
            } else if key == key_created() {
                FmView { created: spec_parse_u64_or_zero(value), ..fm }
            } else if key == key_modified() {
                FmView { modified: spec_parse_u64_or_zero(value), ..fm }
            } else if key == key_tags() {
                FmView { tags: spec_parse_tags(value), ..fm }
            } else if key == key_color() {
                FmView { color: Some(value), ..fm }
            } else {
                fm
            }
        } else {
            fm
        },
    }
}

/// All header lines folded in order into the fields.
pub open spec fn spec_fm_of_lines(lines: Seq<Seq<char>>) -> FmView
    decreases lines.len(),
{
    if lines.len() == 0 {
        spec_fm_default()
    } else {
        spec_apply_line(spec_fm_of_lines(lines.drop_last()), lines.last())
    }
}

/// The decoded header and body of a document, or `None` when the document
/// does not begin with the delimiter or has no second delimiter.
pub open spec fn spec_parse_frontmatter(c: Seq<char>) -> Option<(FmView, Seq<char>)> {
    if c.len() < 3 || !spec_is_delim_at(c, 0) {
        None
    } else {
        match spec_find_delim_from(c, 3) {
            None => None,
            Some(j) => if j + 3 <= c.len() {
                let header = spec_trim(c.subrange(3, j as int));
                let body = spec_trim(c.subrange(j as int + 3, c.len() as int));
                Some((spec_fm_of_lines(spec_split_char(header, '\n')), body))
            } else {
                None
            },
        }
    }
}

// ---------------------------------------------------------------------------
// Executable forms
// ---------------------------------------------------------------------------

/// A decoded header: the recognized fields of a note document.
#[derive(Debug, Clone, PartialEq, Eq)]
pub struct Frontmatter {
    pub title: String,
    pub created: u64,
    pub modified: u64,
    pub tags: Vec<String>,
    pub color: Option<String>,
}

impl DeepView for Frontmatter {
    type V = FmView;

    open spec fn deep_view(&self) -> FmView {
        FmView {
            title: self.title@,
            created: self.created,
            modified: self.modified,
            tags: self.tags.deep_view(),
            color: self.color.deep_view(),
        }
    }
}

fn key_title_vec() -> (r: Vec<char>)
    ensures
        r@ == key_title(),
{
    let mut v: Vec<char> = Vec::new();
    v.push('t');
    v.push('i');
    v.push('t');
    v.push('l');
    v.push('e');
    assert(v@ =~= key_title());
    v
}

fn key_created_vec() -> (r: Vec<char>)
    ensures
        r@ == key_created(),
{
    let mut v: Vec<char> = Vec::new();
    v.push('c');
    v.push('r');
    v.push('e');
    v.push('a');
    v.push('t');
    v.push('e');
    v.push('d');
    assert(v@ =~= key_created());
    v
}

fn key_modified_vec() -> (r: Vec<char>)
    ensures
        r@ == key_modified(),
{
    let mut v: Vec<char> = Vec::new();
    v.push('m');
    v.push('o');
    v.push('d');
    v.push('i');
    v.push('f');
    v.push('i');
    v.push('e');
    v.push('d');
    assert(v@ =~= key_modified());
    v
}

fn key_tags_vec() -> (r: Vec<char>)
    ensures
        r@ == key_tags(),
{
    let mut v: Vec<char> = Vec::new();
    v.push('t');
    v.push('a');
    v.push('g');
    v.push('s');
    assert(v@ =~= key_tags());
    v
}

fn key_color_vec() -> (r: Vec<char>)
    ensures
        r@ == key_color(),
{
    let mut v: Vec<char> = Vec::new();
    v.push('c');
    v.push('o');
    v.push('l');
    v.push('o');
    v.push('r');
    assert(v@ =~= key_color());
    v
}

fn lit_open_vec() -> (r: Vec<char>)
    ensures
        r@ == lit_open(),
{
    let mut v: Vec<char> = Vec::new();
    v.push('-');
    v.push('-');
    v.push('-');
    v.push('\n');
    v.push('t');
    v.push('i');
    v.push('t');
    v.push('l');
    v.push('e');
    v.push(':');
    v.push(' ');
    assert(v@ =~= lit_open());
    v
}

fn lit_created_vec() -> (r: Vec<char>)
    ensures
        r@ == lit_created(),
{
    let mut v: Vec<char> = Vec::new();
    v.push('\n');
    let mut k = key_created_vec();
    append_chars(&mut v, &k);
    v.push(':');
    v.push(' ');
    assert(v@ =~= lit_created());
    v
}

fn lit_modified_vec() -> (r: Vec<char>)
    ensures
        r@ == lit_modified(),
{
    let mut v: Vec<char> = Vec::new();
    v.push('\n');
    let k = key_modified_vec();
    append_chars(&mut v, &k);
    v.push(':');
    v.push(' ');
    assert(v@ =~= lit_modified());
    v
}

fn lit_tags_vec() -> (r: Vec<char>)
    ensures
        r@ == lit_tags(),
{
    let mut v: Vec<char> = Vec::new();
    v.push('\n');
    v.push('t');
    v.push('a');
    v.push('g');
    v.push('s');
    v.push(':');
    v.push(' ');
    v.push('[');
    assert(v@ =~= lit_tags());
    v
}

fn lit_tags_close_vec() -> (r: Vec<char>)
    ensures
        r@ == lit_tags_close(),
{
    let mut v: Vec<char> = Vec::new();
    v.push(']');
    v.push('\n');
    assert(v@ =~= lit_tags_close());
    v
}

fn lit_color_vec() -> (r: Vec<char>)
    ensures
        r@ == lit_color(),
{
    let mut v: Vec<char> = Vec::new();
    v.push('c');
    v.push('o');
    v.push('l');
    v.push('o');
    v.push('r');
    v.push(':');
    v.push(' ');
    assert(v@ =~= lit_color());
    v
}

fn lit_close_vec() -> (r: Vec<char>)
    ensures
        r@ == lit_close(),
{
    let mut v: Vec<char> = Vec::new();
    v.push('-');
    v.push('-');
    v.push('-');
    v.push('\n');
    v.push('\n');
    assert(v@ =~= lit_close());
    v
}

fn lit_sep_vec() -> (r: Vec<char>)
    ensures
        r@ == lit_sep(),
{
    let mut v: Vec<char> = Vec::new();
    v.push(',');
    v.push(' ');
    assert(v@ =~= lit_sep());
    v
}

/// The tags joined by `", "`, matching `spec_join_tags`.
fn join_tags(tags: &Vec<String>) -> (r: Vec<char>)
    ensures
        r@ == spec_join_tags(tags.deep_view()),
{
    let mut r: Vec<char> = Vec::new();
    let mut i: usize = 0;
    assert(r@ =~= spec_join_tags(tags.deep_view().subrange(0, 0)));
    while i < tags.len()
        invariant
            0 <= i <= tags@.len(),
            tags.deep_view().len() == tags@.len(),
            r@ == spec_join_tags(tags.deep_view().subrange(0, i as int)),
        decreases tags@.len() - i,
    {
        let ghost pre = tags.deep_view().subrange(0, i as int);
        let ghost cur = tags.deep_view().subrange(0, i as int + 1);
        let t = to_chars(tags[i].as_str());
        if i == 0 {
            append_chars(&mut r, &t);
        } else {
            let sep = lit_sep_vec();
            append_chars(&mut r, &sep);
            append_chars(&mut r, &t);
        }
        proof {
            assert(cur.drop_last() =~= pre);
            assert(cur.last() == tags.deep_view()[i as int]);
            assert(tags.deep_view()[i as int] == tags@[i as int]@);
            if i == 0 {
                assert(spec_join_tags(cur) == cur[0]);
            } else {
                assert(spec_join_tags(cur) == spec_join_tags(pre) + lit_sep() + cur.last());
            }
        }
        i = i + 1;
    }
    proof {
        assert(tags.deep_view().subrange(0, tags.deep_view().len() as int) =~= tags.deep_view());
    }
    r
}

/// Serializes a note to its document form, matching `spec_encode`.
pub fn create_markdown(note: &Note) -> (r: String)
    ensures
        r@ == spec_encode(note@),
{
    let mut out: Vec<char> = Vec::new();
    let piece = lit_open_vec();
    append_chars(&mut out, &piece);
    let title = to_chars(note.title.as_str());
    append_chars(&mut out, &title);
    let piece = lit_created_vec();
    append_chars(&mut out, &piece);
    let ts = u64_to_chars(note.created_at);
    append_chars(&mut out, &ts);
    let piece = lit_modified_vec();
    append_chars(&mut out, &piece);
    let ts = u64_to_chars(note.updated_at);
    append_chars(&mut out, &ts);
    let piece = lit_tags_vec();
    append_chars(&mut out, &piece);
    let joined = join_tags(&note.tags);
    append_chars(&mut out, &joined);
    let piece = lit_tags_close_vec();
    append_chars(&mut out, &piece);
    match &note.color {
        Some(c) => {
            let piece = lit_color_vec();
            append_chars(&mut out, &piece);
            let cv = to_chars(c.as_str());
            append_chars(&mut out, &cv);
            out.push('\n');
            assert(spec_color_part(note@.color) =~= lit_color() + c@ + lit_nl());
        },
        None => {
            assert(spec_color_part(note@.color) =~= Seq::<char>::empty());
        },
    }
    let piece = lit_close_vec();
    append_chars(&mut out, &piece);
    let body = to_chars(note.content.as_str());
    append_chars(&mut out, &body);
    assert(out@ =~= spec_encode(note@));
    chars_to_string(&out)
}

/// The trimmed, nonempty pieces of a bracketed tag list, matching
/// `spec_parse_tags`.
fn parse_tags(v: &Vec<char>) -> (r: Vec<Vec<char>>)
    ensures
        r.deep_view() == spec_parse_tags(v@),
{
    let n = v.len();
    if !(n >= 2 && v[0] == '[' && v[n - 1] == ']') {
        let r: Vec<Vec<char>> = Vec::new();
        assert(r.deep_view() =~~= spec_parse_tags(v@));
        return r;
    }
    let inner = subrange_chars(v, 1, n - 1);
    let parts = split_char_vec(&inner, ',');
    let ghost all = parts.deep_view();
    let mut r: Vec<Vec<char>> = Vec::new();
    let mut i: usize = 0;
    proof {
        assert(all.subrange(0, all.len() as int) =~= all);
    }
    assert(r.deep_view() + spec_tags_list(all.subrange(0, all.len() as int)) =~~= spec_tags_list(
        all,
    ));
    while i < parts.len()
        invariant
            0 <= i <= parts@.len(),
            all == parts.deep_view(),
            all.len() == parts@.len(),
            r.deep_view() + spec_tags_list(all.subrange(i as int, all.len() as int))
                =~~= spec_tags_list(all),
        decreases parts@.len() - i,
    {
        let ghost rest = all.subrange(i as int, all.len() as int);
        let t = trim_chars(&parts[i]);
        proof {
            assert(rest[0] == all[i as int]);
            assert(all[i as int] == parts@[i as int]@);
            assert(rest.drop_first() =~= all.subrange(i as int + 1, all.len() as int));
        }
        if t.len() > 0 {
            r.push(t);
        }
        i = i + 1;
        assert(r.deep_view() + spec_tags_list(all.subrange(i as int, all.len() as int))
            =~~= spec_tags_list(all));
    }
    assert(all.subrange(all.len() as int, all.len() as int) =~= Seq::<Seq<char>>::empty());
    assert(r.deep_view() =~~= spec_tags_list(all));
    assert(v@.subrange(1, v@.len() - 1) == inner@);
    r
}

/// Turns a vector of character vectors into owned strings.
fn strings_of(v: Vec<Vec<char>>) -> (r: Vec<String>)
    ensures
        r.deep_view() == v.deep_view(),
{
    let mut r: Vec<String> = Vec::new();
    let mut i: usize = 0;
    while i < v.len()
        invariant
            0 <= i <= v@.len(),
            r@.len() == i,
            forall|k: int| 0 <= k < i ==> r@[k]@ == v@[k]@,
        decreases v@.len() - i,
    {
        let s = chars_to_string(&v[i]);
        r.push(s);
        i = i + 1;
    }
    assert forall|k: int| 0 <= k < v@.len() implies r.deep_view()[k] == v.deep_view()[k] by {
        crate::text::lemma_chars_deep_view(v@[k]);
    }
    assert(r.deep_view() =~= v.deep_view());
    r
}

/// Parses the header and body of a note document, matching
/// `spec_parse_frontmatter`.  Decoding never fails for the caller: `None`
/// only reports that the document carries no header.
pub fn parse_frontmatter(content: &str) -> (r: Option<(Frontmatter, String)>)
    ensures
        (match r {
            None => spec_parse_frontmatter(content@) is None,
            Some(p) => spec_parse_frontmatter(content@) == Some((p.0.deep_view(), p.1@)),
        }),
{
    let v = to_chars(content);
    let n = v.len();
    if n < 3 {
        return None;
    }
    if !(v[0] == '-' && v[1] == '-' && v[2] == '-') {
        assert(!spec_is_delim_at(v@, 0));
        return None;
    }
    assert(spec_is_delim_at(v@, 0));
    let j = match find_delim_from(&v, 3) {
        None => {
            return None;
        },
        Some(j) => j,
    };
    let header_raw = subrange_chars(&v, 3, j);
    let header = trim_chars(&header_raw);
    let body_raw = subrange_chars(&v, j + 3, n);
    let body_v = trim_chars(&body_raw);
    let lines = split_char_vec(&header, '\n');
    let ghost lv = lines.deep_view();
    let mut title_v: Vec<char> = Vec::new();
    let mut created: u64 = 0;
    let mut modified: u64 = 0;
    let mut tags_v: Vec<String> = Vec::new();
    let mut color_v: Option<String> = None;
    let mut i: usize = 0;
    proof {
        assert(lv.subrange(0, 0) =~~= Seq::<Seq<char>>::empty());
        assert(FmView {
            title: title_v@,
            created: created,
            modified: modified,
            tags: tags_v.deep_view(),
            color: color_v.deep_view(),
        } =~~= spec_fm_of_lines(lv.subrange(0, 0)));
    }
    while i < lines.len()
        invariant
            0 <= i <= lines@.len(),
            lv == lines.deep_view(),
            lv.len() == lines@.len(),
            (FmView {
                title: title_v@,
                created: created,
                modified: modified,
                tags: tags_v.deep_view(),
                color: color_v.deep_view(),
            }) == spec_fm_of_lines(lv.subrange(0, i as int)),
        decreases lines@.len() - i,
    {
        let ghost pre = lv.subrange(0, i as int);
        let ghost cur = lv.subrange(0, i as int + 1);
        let ghost fm_pre = spec_fm_of_lines(pre);
        proof {
            assert(cur.drop_last() =~= pre);
            assert(cur.last() == lv[i as int]);
            assert(lv[i as int] == lines@[i as int]@);
            assert(spec_fm_of_lines(cur) == spec_apply_line(fm_pre, lv[i as int]));
        }
        let line = &lines[i];
        match find_char_from(line, 0, ':') {
            None => {},
            Some(k) => {
                let ln = line.len();
                let key = trim_chars(&subrange_chars(line, 0, k));
                let value = trim_chars(&subrange_chars(line, k + 1, ln));
                let kt = key_title_vec();
                let kc = key_created_vec();
                let km = key_modified_vec();
                let kg = key_tags_vec();
                let ko = key_color_vec();
                if eq_chars(&key, &kt) {
                    title_v = value;
                } else if eq_chars(&key, &kc) {
                    created = parse_u64_or_zero(&value);
                } else if eq_chars(&key, &km) {
                    modified = parse_u64_or_zero(&value);
                } else if eq_chars(&key, &kg) {
                    let tl = parse_tags(&value);
                    tags_v = strings_of(tl);
                } else if eq_chars(&key, &ko) {
                    color_v = Some(chars_to_string(&value));
                }
            },
        }
        i = i + 1;
        assert((FmView {
            title: title_v@,
            created: created,
            modified: modified,
            tags: tags_v.deep_view(),
            color: color_v.deep_view(),
        }) =~~= spec_fm_of_lines(lv.subrange(0, i as int)));
    }
    proof {
        assert(lv.subrange(0, lv.len() as int) =~= lv);
    }
    let fm = Frontmatter {
        title: chars_to_string(&title_v),
        created,
        modified,
        tags: tags_v,
        color: color_v,
    };
    let body = chars_to_string(&body_v);
    Some((fm, body))
}

} // verus!
