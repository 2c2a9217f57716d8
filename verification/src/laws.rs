//! The library's laws: proofs that decoding inverts encoding, that listing
//! is idempotent, and that a deleted note never reappears in a listing.

use vstd::prelude::*;
use crate::codec::{
    spec_encode, spec_parse_frontmatter, spec_apply_line, spec_fm_of_lines, spec_fm_default,
    spec_parse_tags, spec_tags_list, spec_join_tags, spec_color_part, FmView, key_title,
    key_created, key_modified, key_tags, key_color, lit_open, lit_created, lit_modified,
    lit_tags, lit_tags_close, lit_color, lit_nl, lit_close, lit_sep,
};
use crate::digits::{
    spec_u64_digits, spec_is_digit, spec_parse_u64_or_zero, lemma_u64_digits_are_digits,
    lemma_parse_u64_digits,
};
use crate::note::NoteView;
use crate::repo::{
    spec_find_note, spec_insert_note, spec_scan_into, spec_scan_decode, spec_filenames_distinct,
    spec_ids_distinct, spec_new_note, lemma_scan_decode_ids,
};
use crate::sort::{spec_sort_notes, lemma_sort_notes_contains};
use crate::text::{
    spec_is_ws, spec_trim, spec_trimmed, spec_no_delim, spec_is_delim_at, spec_split_char,
    spec_find_delim_from, lemma_trim_of_trimmed, lemma_trim_wrap, lemma_find_char_exact,
    lemma_find_delim_exact, lemma_split_prepend, lemma_split_whole, lemma_no_delim_concat,
};

verus! {

/// `":"` followed by `" "`: what encoding puts after every key.
pub open spec fn lit_colon_sp() -> Seq<char> {
    seq![':', ' ']
}

/// `"---"`, the bare delimiter.
pub open spec fn lit_ddd() -> Seq<char> {
    seq!['-', '-', '-']
}

/// A single-line field value that survives the round trip: free of
/// newlines, carrying no delimiter, and without surrounding whitespace.
pub open spec fn spec_clean_text(s: Seq<char>) -> bool {
    &&& forall|i: int| 0 <= i < s.len() ==> s[i] != '\n'
    &&& spec_trimmed(s)
    &&& spec_no_delim(s)
}

/// A tag that survives the round trip: a nonempty clean text without the
/// comma that separates rendered tags.
pub open spec fn spec_clean_tag(s: Seq<char>) -> bool {
    &&& spec_clean_text(s)
    &&& s.len() > 0
    &&& forall|i: int| 0 <= i < s.len() ==> s[i] != ','
}

/// A note whose encoded document decodes back to the same fields: clean
/// title and tags, a color that is absent or clean and nonempty, and a body
/// without surrounding whitespace or an embedded header delimiter.
pub open spec fn spec_clean_note(n: NoteView) -> bool {
    &&& spec_clean_text(n.title)
    &&& spec_trimmed(n.content)
    &&& spec_no_delim(n.content)
    &&& forall|k: int| 0 <= k < n.tags.len() ==> spec_clean_tag(#[trigger] n.tags[k])
    &&& (match n.color {
        None => true,
        Some(c) => spec_clean_text(c) && c.len() > 0,
    })
}

/// The header fields that decoding an encoded note recovers.
pub open spec fn spec_decoded_fm(n: NoteView) -> FmView {
    FmView {
        title: n.title,
        created: n.created_at,
        modified: n.updated_at,
        tags: n.tags,
        color: n.color,
    }
}

// ---------------------------------------------------------------------------
// Cleanliness of rendered pieces
// ---------------------------------------------------------------------------

/// A digit rendering is trimmed, has no newline, no hyphen, no comma and no
/// colon.
proof fn lemma_digits_clean(n: nat)
    ensures
        spec_trimmed(spec_u64_digits(n)),
        forall|i: int| 0 <= i < spec_u64_digits(n).len() ==> spec_u64_digits(n)[i] != '\n',
        spec_no_delim(spec_u64_digits(n)),
        forall|i: int| 0 <= i < spec_u64_digits(n).len() ==> spec_u64_digits(n)[i] != ':',
{
    let d = spec_u64_digits(n);
    lemma_u64_digits_are_digits(n);
    assert forall|i: int| 0 <= i < d.len() implies d[i] != '\n' && !spec_is_ws(d[i]) && d[i] != '-'
        && d[i] != ':' by {
        assert(spec_is_digit(d[i]));
    }
    assert forall|i: int| !spec_is_delim_at(d, i) by {
        if 0 <= i && i + 3 <= d.len() {
            assert(spec_is_digit(d[i]));
        }
    }
}

/// The joined tags carry no newline and no delimiter.
proof fn lemma_join_clean(tags: Seq<Seq<char>>)
    requires
        forall|k: int| 0 <= k < tags.len() ==> spec_clean_tag(#[trigger] tags[k]),
    ensures
        forall|i: int| 0 <= i < spec_join_tags(tags).len() ==> spec_join_tags(tags)[i] != '\n',
        spec_no_delim(spec_join_tags(tags)),
    decreases tags.len(),
{
    let j = spec_join_tags(tags);
    if tags.len() == 0 {
        assert(forall|i: int| !spec_is_delim_at(j, i));
    } else if tags.len() == 1 {
        assert(j == tags[0]);
    } else {
        let d = tags.drop_last();
        assert(forall|k: int| 0 <= k < d.len() ==> d[k] == tags[k]);
        lemma_join_clean(d);
        let jd = spec_join_tags(d);
        let last = tags.last();
        assert(spec_clean_tag(last));
        assert(spec_no_delim(lit_sep())) by {
            assert(forall|i: int| !spec_is_delim_at(lit_sep(), i));
        }
        lemma_no_delim_concat(jd, lit_sep());
        lemma_no_delim_concat(jd + lit_sep(), last);
        assert(j == jd + lit_sep() + last);
        assert forall|i: int| 0 <= i < j.len() implies j[i] != '\n' by {
            if i < jd.len() {
                assert(j[i] == jd[i]);
            } else if i < jd.len() + 2 {
                assert(j[i] == lit_sep()[i - jd.len()]);
            } else {
                assert(j[i] == last[i - jd.len() - 2]);
            }
        }
    }
}

// ---------------------------------------------------------------------------
// The tag list round trip
// ---------------------------------------------------------------------------

/// Joining two or more tags is also one tag, the separator, and the rest.
proof fn lemma_join_tags_first(tags: Seq<Seq<char>>)
    requires
        tags.len() >= 2,
    ensures
        spec_join_tags(tags) == tags[0] + lit_sep() + spec_join_tags(tags.drop_first()),
    decreases tags.len(),
{
    if tags.len() == 2 {
        assert(tags.drop_last() =~= seq![tags[0]]);
        assert(tags.drop_first() =~= seq![tags[1]]);
        assert(spec_join_tags(seq![tags[0]]) == tags[0]);
        assert(spec_join_tags(seq![tags[1]]) == tags[1]);
        assert(tags.last() == tags[1]);
    } else {
        let d = tags.drop_last();
        lemma_join_tags_first(d);
        assert(d[0] == tags[0]);
        assert(d.drop_first() =~= tags.drop_first().drop_last());
        let df = tags.drop_first();
        assert(df.len() >= 2);
        assert(spec_join_tags(df) == spec_join_tags(df.drop_last()) + lit_sep() + df.last());
        assert(df.last() == tags.last());
        assert(spec_join_tags(tags) == spec_join_tags(d) + lit_sep() + tags.last());
        assert(tags[0] + lit_sep() + (spec_join_tags(df.drop_last()) + lit_sep() + df.last())
            =~= (tags[0] + lit_sep() + spec_join_tags(df.drop_last())) + lit_sep() + tags.last());
    }
}

/// Splitting a whitespace prefix plus the joined tags on commas, trimming
/// each piece and dropping the empty ones recovers the tags.
proof fn lemma_tags_split_join(w: Seq<char>, tags: Seq<Seq<char>>)
    requires
        forall|i: int| 0 <= i < w.len() ==> spec_is_ws(#[trigger] w[i]) && w[i] != ',',
        forall|k: int| 0 <= k < tags.len() ==> spec_clean_tag(#[trigger] tags[k]),
    ensures
        spec_tags_list(spec_split_char(w + spec_join_tags(tags), ',')) == tags,
    decreases tags.len(),
{
    if tags.len() == 0 {
        let s = w + spec_join_tags(tags);
        assert(s =~= w);
        assert(forall|k: int| 0 <= k < s.len() ==> s[k] != ',');
        lemma_split_whole(s, ',');
        assert(spec_split_char(s, ',') == seq![s]);
        lemma_trim_wrap(w, Seq::<char>::empty(), Seq::<char>::empty());
        assert(w + Seq::<char>::empty() + Seq::<char>::empty() =~= s);
        assert(spec_trim(s).len() == 0);
        let parts = spec_split_char(s, ',');
        assert(parts == seq![s]);
        assert(parts[0] == s);
        assert(parts.drop_first() =~= Seq::<Seq<char>>::empty());
        assert(spec_tags_list(Seq::<Seq<char>>::empty()) == Seq::<Seq<char>>::empty());
        assert(spec_tags_list(parts) =~= tags);
    } else if tags.len() == 1 {
        let t0 = tags[0];
        let s = w + spec_join_tags(tags);
        assert(s =~= w + t0);
        assert forall|k: int| 0 <= k < s.len() implies s[k] != ',' by {
            if k < w.len() {
                assert(s[k] == w[k]);
            } else {
                assert(s[k] == t0[k - w.len()]);
            }
        }
        lemma_split_whole(s, ',');
        lemma_trim_wrap(w, t0, Seq::<char>::empty());
        assert(w + t0 + Seq::<char>::empty() =~= s);
        assert(spec_trim(s) == t0);
        let parts = spec_split_char(s, ',');
        assert(parts == seq![s]);
        assert(parts[0] == s);
        assert(parts.drop_first() =~= Seq::<Seq<char>>::empty());
        assert(spec_tags_list(Seq::<Seq<char>>::empty()) == Seq::<Seq<char>>::empty());
        assert(spec_tags_list(parts) =~= seq![t0]);
        assert(seq![t0] =~= tags);
    } else {
        let t0 = tags[0];
        let rest = tags.drop_first();
        lemma_join_tags_first(tags);
        let s = w + spec_join_tags(tags);
        let a = w + t0;
        let b = seq![' '] + spec_join_tags(rest);
        assert(s =~= a + seq![','] + b);
        assert forall|k: int| 0 <= k < a.len() implies a[k] != ',' by {
            if k < w.len() {
                assert(a[k] == w[k]);
            } else {
                assert(a[k] == t0[k - w.len()]);
            }
        }
        lemma_split_prepend(a, b, ',');
        assert(spec_split_char(s, ',') == seq![a] + spec_split_char(b, ','));
        lemma_tags_split_join(seq![' '], rest);
        lemma_trim_wrap(w, t0, Seq::<char>::empty());
        assert(w + t0 + Seq::<char>::empty() =~= a);
        assert(spec_trim(a) == t0);
        let parts = seq![a] + spec_split_char(b, ',');
        assert(parts[0] == a);
        assert(parts.drop_first() =~= spec_split_char(b, ','));
        assert(spec_tags_list(parts) =~= seq![t0] + spec_tags_list(spec_split_char(b, ',')));
        assert(seq![t0] + rest =~= tags);
    }
}

// ---------------------------------------------------------------------------
// One key line
// ---------------------------------------------------------------------------

/// Applying `key: value` to the fields sets exactly the recognized key's
/// field to the (trim-invariant) value.
proof fn lemma_apply_key_line(fm: FmView, k: Seq<char>, v: Seq<char>)
    requires
        forall|i: int| 0 <= i < k.len() ==> k[i] != ':',
        spec_trimmed(k),
        spec_trimmed(v),
    ensures
        spec_apply_line(fm, k + lit_colon_sp() + v) == (if k == key_title() {
            FmView { title: v, ..fm }
        } else if k == key_created() {
            FmView { created: spec_parse_u64_or_zero(v), ..fm }
        } else if k == key_modified() {
            FmView { modified: spec_parse_u64_or_zero(v), ..fm }
        } else if k == key_tags() {
            FmView { tags: spec_parse_tags(v), ..fm }
        } else if k == key_color() {
            FmView { color: Some(v), ..fm }
        } else {
            fm
        }),
{
    let line = k + lit_colon_sp() + v;
    assert(line[k.len() as int] == ':');
    assert(forall|i: int| 0 <= i < k.len() ==> line[i] == k[i]);
    lemma_find_char_exact(line, 0, k.len() as nat, ':');
    assert(line.subrange(0, k.len() as int) =~= k);
    lemma_trim_of_trimmed(k);
    assert(line.subrange(k.len() as int + 1, line.len() as int) =~= seq![' '] + v);
    lemma_trim_wrap(seq![' '], v, Seq::<char>::empty());
    assert(seq![' '] + v + Seq::<char>::empty() =~= seq![' '] + v);
    assert(spec_trim(seq![' '] + v) == v);
}

// ---------------------------------------------------------------------------
// The whole document
// ---------------------------------------------------------------------------

/// `c` occurs in neither part, so not in the concatenation.
proof fn lemma_no_char_concat(a: Seq<char>, b: Seq<char>, c: char)
    requires
        forall|i: int| 0 <= i < a.len() ==> a[i] != c,
        forall|i: int| 0 <= i < b.len() ==> b[i] != c,
    ensures
        forall|i: int| 0 <= i < (a + b).len() ==> (a + b)[i] != c,
{
    assert forall|i: int| 0 <= i < (a + b).len() implies (a + b)[i] != c by {
        if i < a.len() {
            assert((a + b)[i] == a[i]);
        } else {
            assert((a + b)[i] == b[i - a.len()]);
        }
    }
}

/// The first header line of an encoded note.
pub open spec fn spec_line_title(n: NoteView) -> Seq<char> {
    key_title() + lit_colon_sp() + n.title
}

/// The `created:` header line of an encoded note.
pub open spec fn spec_line_created(n: NoteView) -> Seq<char> {
    key_created() + lit_colon_sp() + spec_u64_digits(n.created_at as nat)
}

/// The `modified:` header line of an encoded note.
pub open spec fn spec_line_modified(n: NoteView) -> Seq<char> {
    key_modified() + lit_colon_sp() + spec_u64_digits(n.updated_at as nat)
}

/// The `tags:` header line of an encoded note.
pub open spec fn spec_line_tags(n: NoteView) -> Seq<char> {
    key_tags() + lit_colon_sp() + (seq!['['] + spec_join_tags(n.tags) + seq![']'])
}

/// The `color:` header line for a set color.
pub open spec fn spec_line_color(c: Seq<char>) -> Seq<char> {
    key_color() + lit_colon_sp() + c
}

/// The text between the two delimiter lines of an encoded note: its header
/// lines joined by newlines.
pub open spec fn spec_hblock(n: NoteView) -> Seq<char> {
    match n.color {
        None => spec_line_title(n) + lit_nl() + spec_line_created(n) + lit_nl()
            + spec_line_modified(n) + lit_nl() + spec_line_tags(n),
        Some(c) => spec_line_title(n) + lit_nl() + spec_line_created(n) + lit_nl()
            + spec_line_modified(n) + lit_nl() + spec_line_tags(n) + lit_nl() + spec_line_color(
            c,
        ),
    }
}

/// The header lines of an encoded note, in order.
pub open spec fn spec_hlines(n: NoteView) -> Seq<Seq<char>> {
    match n.color {
        None => seq![
            spec_line_title(n),
            spec_line_created(n),
            spec_line_modified(n),
            spec_line_tags(n),
        ],
        Some(c) => seq![
            spec_line_title(n),
            spec_line_created(n),
            spec_line_modified(n),
            spec_line_tags(n),
            spec_line_color(c),
        ],
    }
}

/// The encoded document, reassociated around its header block.
#[verifier::rlimit(100)]
proof fn lemma_encode_shape(n: NoteView)
    ensures
        spec_encode(n) == lit_ddd() + (lit_nl() + spec_hblock(n) + lit_nl()) + lit_ddd()
            + lit_nl() + lit_nl() + n.content,
{
    assert(lit_open() =~= lit_ddd() + lit_nl() + key_title() + lit_colon_sp());
    assert(lit_created() =~= lit_nl() + key_created() + lit_colon_sp());
    assert(lit_modified() =~= lit_nl() + key_modified() + lit_colon_sp());
    assert(lit_tags() =~= lit_nl() + key_tags() + lit_colon_sp() + seq!['[']);
    assert(lit_tags_close() =~= seq![']'] + lit_nl());
    assert(lit_close() =~= lit_ddd() + lit_nl() + lit_nl());
    assert(lit_color() =~= key_color() + lit_colon_sp());
    match n.color {
        None => {
            assert(spec_color_part(n.color) =~= Seq::<char>::empty());
            assert(spec_encode(n) =~= lit_ddd() + (lit_nl() + spec_hblock(n) + lit_nl())
                + lit_ddd() + lit_nl() + lit_nl() + n.content);
        },
        Some(c) => {
            assert(spec_color_part(n.color) =~= lit_color() + c + lit_nl());
            assert(spec_encode(n) =~= lit_ddd() + (lit_nl() + spec_hblock(n) + lit_nl())
                + lit_ddd() + lit_nl() + lit_nl() + n.content);
        },
    }
}

/// Each header line of a clean note is free of newlines and delimiters.
proof fn lemma_lines_clean(n: NoteView)
    requires
        spec_clean_note(n),
    ensures
        forall|i: int| 0 <= i < spec_line_title(n).len() ==> spec_line_title(n)[i] != '\n',
        forall|i: int| 0 <= i < spec_line_created(n).len() ==> spec_line_created(n)[i] != '\n',
        forall|i: int| 0 <= i < spec_line_modified(n).len() ==> spec_line_modified(n)[i] != '\n',
        forall|i: int| 0 <= i < spec_line_tags(n).len() ==> spec_line_tags(n)[i] != '\n',
        (n.color matches Some(c) ==> forall|i: int|
            0 <= i < spec_line_color(c).len() ==> spec_line_color(c)[i] != '\n'),
        spec_no_delim(spec_line_title(n)),
        spec_no_delim(spec_line_created(n)),
        spec_no_delim(spec_line_modified(n)),
        spec_no_delim(spec_line_tags(n)),
        (n.color matches Some(c) ==> spec_no_delim(spec_line_color(c))),
{
    let t = n.title;
    let dc = spec_u64_digits(n.created_at as nat);
    let dm = spec_u64_digits(n.updated_at as nat);
    let jn = spec_join_tags(n.tags);
    let v4 = seq!['['] + jn + seq![']'];
    lemma_digits_clean(n.created_at as nat);
    lemma_digits_clean(n.updated_at as nat);
    lemma_join_clean(n.tags);
    lemma_no_char_concat(key_title(), lit_colon_sp(), '\n');
    lemma_no_char_concat(key_title() + lit_colon_sp(), t, '\n');
    lemma_no_char_concat(key_created(), lit_colon_sp(), '\n');
    lemma_no_char_concat(key_created() + lit_colon_sp(), dc, '\n');
    lemma_no_char_concat(key_modified(), lit_colon_sp(), '\n');
    lemma_no_char_concat(key_modified() + lit_colon_sp(), dm, '\n');
    lemma_no_char_concat(seq!['['], jn, '\n');
    lemma_no_char_concat(seq!['['] + jn, seq![']'], '\n');
    lemma_no_char_concat(key_tags(), lit_colon_sp(), '\n');
    lemma_no_char_concat(key_tags() + lit_colon_sp(), v4, '\n');
    assert(spec_no_delim(key_title())) by {
        assert(forall|i: int| !spec_is_delim_at(key_title(), i));
    }
    assert(spec_no_delim(key_created())) by {
        assert(forall|i: int| !spec_is_delim_at(key_created(), i));
    }
    assert(spec_no_delim(key_modified())) by {
        assert(forall|i: int| !spec_is_delim_at(key_modified(), i));
    }
    assert(spec_no_delim(key_tags())) by {
        assert(forall|i: int| !spec_is_delim_at(key_tags(), i));
    }
    assert(spec_no_delim(key_color())) by {
        assert(forall|i: int| !spec_is_delim_at(key_color(), i));
    }
    assert(spec_no_delim(lit_colon_sp())) by {
        assert(forall|i: int| !spec_is_delim_at(lit_colon_sp(), i));
    }
    assert(spec_no_delim(seq!['['])) by {
        assert(forall|i: int| !spec_is_delim_at(seq!['['], i));
    }
    assert(spec_no_delim(seq![']'])) by {
        assert(forall|i: int| !spec_is_delim_at(seq![']'], i));
    }
    lemma_no_delim_concat(key_title(), lit_colon_sp());
    lemma_no_delim_concat(key_title() + lit_colon_sp(), t);
    lemma_no_delim_concat(key_created(), lit_colon_sp());
    lemma_no_delim_concat(key_created() + lit_colon_sp(), dc);
    lemma_no_delim_concat(key_modified(), lit_colon_sp());
    lemma_no_delim_concat(key_modified() + lit_colon_sp(), dm);
    lemma_no_delim_concat(seq!['['], jn);
    lemma_no_delim_concat(seq!['['] + jn, seq![']']);
    lemma_no_delim_concat(key_tags(), lit_colon_sp());
    lemma_no_delim_concat(key_tags() + lit_colon_sp(), v4);
    if n.color is Some {
        let c = n.color->0;
        lemma_no_char_concat(key_color(), lit_colon_sp(), '\n');
        lemma_no_char_concat(key_color() + lit_colon_sp(), c, '\n');
        lemma_no_delim_concat(key_color(), lit_colon_sp());
        lemma_no_delim_concat(key_color() + lit_colon_sp(), c);
    }
}

/// The header block of a clean note is trimmed, delimiter-free, and starts
/// with a letter.
proof fn lemma_hblock_clean(n: NoteView)
    requires
        spec_clean_note(n),
    ensures
        spec_no_delim(spec_hblock(n)),
        spec_trimmed(spec_hblock(n)),
        spec_hblock(n).len() > 0,
        !spec_is_ws(spec_hblock(n)[0]),
        !spec_is_ws(spec_hblock(n)[spec_hblock(n).len() - 1]),
{
    lemma_lines_clean(n);
    let l1 = spec_line_title(n);
    let l2 = spec_line_created(n);
    let l3 = spec_line_modified(n);
    let l4 = spec_line_tags(n);
    assert(spec_no_delim(lit_nl())) by {
        assert(forall|i: int| !spec_is_delim_at(lit_nl(), i));
    }
    lemma_no_delim_concat(l1, lit_nl());
    lemma_no_delim_concat(l1 + lit_nl(), l2);
    lemma_no_delim_concat(l1 + lit_nl() + l2, lit_nl());
    lemma_no_delim_concat(l1 + lit_nl() + l2 + lit_nl(), l3);
    lemma_no_delim_concat(l1 + lit_nl() + l2 + lit_nl() + l3, lit_nl());
    lemma_no_delim_concat(l1 + lit_nl() + l2 + lit_nl() + l3 + lit_nl(), l4);
    let x = spec_hblock(n);
    match n.color {
        None => {
            assert(x[0] == 't');
            assert(x[x.len() - 1] == ']');
        },
        Some(c) => {
            let l5 = spec_line_color(c);
            lemma_no_delim_concat(l1 + lit_nl() + l2 + lit_nl() + l3 + lit_nl() + l4, lit_nl());
            lemma_no_delim_concat(
                l1 + lit_nl() + l2 + lit_nl() + l3 + lit_nl() + l4 + lit_nl(),
                l5,
            );
            assert(x[0] == 't');
            assert(x[x.len() - 1] == c[c.len() - 1]);
        },
    }
}

/// Parsing the document of a clean note finds the second delimiter exactly
/// after the header block, and the two regions trim to the block and the
/// body.
proof fn lemma_regions(n: NoteView)
    requires
        spec_clean_note(n),
    ensures
        ({
            let enc = spec_encode(n);
            let x = spec_hblock(n);
            let j = 5 + x.len();
            &&& enc.len() >= 3
            &&& spec_is_delim_at(enc, 0)
            &&& spec_find_delim_from(enc, 3) == Some(j as nat)
            &&& j + 3 <= enc.len()
            &&& spec_trim(enc.subrange(3, j as int)) == x
            &&& spec_trim(enc.subrange(j as int + 3, enc.len() as int)) == n.content
        }),
{
    lemma_encode_shape(n);
    lemma_hblock_clean(n);
    let x = spec_hblock(n);
    let u = lit_nl() + x + lit_nl();
    assert(spec_no_delim(lit_nl())) by {
        assert(forall|i: int| !spec_is_delim_at(lit_nl(), i));
    }
    lemma_no_delim_concat(lit_nl(), x);
    lemma_no_delim_concat(lit_nl() + x, lit_nl());
    assert(spec_no_delim(u));
    assert(u[u.len() - 1] == '\n');
    let enc = spec_encode(n);
    let e2 = lit_ddd() + u + lit_ddd() + lit_nl() + lit_nl() + n.content;
    assert(enc == e2);
    let j: int = 3 + u.len() as int;
    assert(j == 5 + x.len());
    assert(e2[0] == '-' && e2[1] == '-' && e2[2] == '-');
    assert(spec_is_delim_at(e2, 0));
    assert(e2[j] == '-' && e2[j + 1] == '-' && e2[j + 2] == '-');
    assert(spec_is_delim_at(e2, j));
    assert forall|k: int| 3 <= k < j implies !spec_is_delim_at(e2, k) by {
        if spec_is_delim_at(e2, k) {
            if k + 3 <= j {
                assert(e2[k] == u[k - 3]);
                assert(e2[k + 1] == u[k - 2]);
                assert(e2[k + 2] == u[k - 1]);
                assert(spec_is_delim_at(u, k - 3));
            } else {
                assert(e2[j - 1] == u[u.len() - 1]);
                assert(e2[j - 1] == '\n');
                assert(k <= j - 1 < k + 3);
            }
        }
    }
    lemma_find_delim_exact(e2, 3, j as nat);
    assert(enc.subrange(3, j) =~= u);
    lemma_trim_wrap(lit_nl(), x, lit_nl());
    assert(lit_nl() + x + lit_nl() =~= u);
    assert(spec_trim(u) == x);
    assert(enc.subrange(j + 3, enc.len() as int) =~= lit_nl() + lit_nl() + n.content);
    lemma_trim_wrap(lit_nl() + lit_nl(), n.content, Seq::<char>::empty());
    assert(lit_nl() + lit_nl() + n.content + Seq::<char>::empty() =~= lit_nl() + lit_nl()
        + n.content);
}

/// The header block of a clean note splits into exactly its lines.
proof fn lemma_hblock_lines(n: NoteView)
    requires
        spec_clean_note(n),
    ensures
        spec_split_char(spec_hblock(n), '\n') == spec_hlines(n),
{
    lemma_lines_clean(n);
    let l1 = spec_line_title(n);
    let l2 = spec_line_created(n);
    let l3 = spec_line_modified(n);
    let l4 = spec_line_tags(n);
    let x = spec_hblock(n);
    match n.color {
        None => {
            let rest2 = l2 + lit_nl() + l3 + lit_nl() + l4;
            let rest3 = l3 + lit_nl() + l4;
            assert(x =~= l1 + seq!['\n'] + rest2);
            lemma_split_prepend(l1, rest2, '\n');
            assert(rest2 =~= l2 + seq!['\n'] + rest3);
            lemma_split_prepend(l2, rest3, '\n');
            assert(rest3 =~= l3 + seq!['\n'] + l4);
            lemma_split_prepend(l3, l4, '\n');
            lemma_split_whole(l4, '\n');
            assert(spec_split_char(x, '\n') =~= spec_hlines(n));
        },
        Some(c) => {
            let l5 = spec_line_color(c);
            let rest2 = l2 + lit_nl() + l3 + lit_nl() + l4 + lit_nl() + l5;
            let rest3 = l3 + lit_nl() + l4 + lit_nl() + l5;
            let rest4 = l4 + lit_nl() + l5;
            assert(x =~= l1 + seq!['\n'] + rest2);
            lemma_split_prepend(l1, rest2, '\n');
            assert(rest2 =~= l2 + seq!['\n'] + rest3);
            lemma_split_prepend(l2, rest3, '\n');
            assert(rest3 =~= l3 + seq!['\n'] + rest4);
            lemma_split_prepend(l3, rest4, '\n');
            assert(rest4 =~= l4 + seq!['\n'] + l5);
            lemma_split_prepend(l4, l5, '\n');
            lemma_split_whole(l5, '\n');
            assert(spec_split_char(x, '\n') =~= spec_hlines(n));
        },
    }
}

/// Folding the header lines of a clean note recovers exactly its fields.
#[verifier::rlimit(100)]
proof fn lemma_fold_lines(n: NoteView)
    requires
        spec_clean_note(n),
    ensures
        spec_fm_of_lines(spec_hlines(n)) == spec_decoded_fm(n),
{
    let t = n.title;
    let dc = spec_u64_digits(n.created_at as nat);
    let dm = spec_u64_digits(n.updated_at as nat);
    let jn = spec_join_tags(n.tags);
    let v4 = seq!['['] + jn + seq![']'];
    let l1 = spec_line_title(n);
    let l2 = spec_line_created(n);
    let l3 = spec_line_modified(n);
    let l4 = spec_line_tags(n);
    lemma_digits_clean(n.created_at as nat);
    lemma_digits_clean(n.updated_at as nat);
    assert(key_color() != key_title()) by {
        assert(key_color()[0] != key_title()[0]);
    }
    assert(forall|i: int| 0 <= i < key_title().len() ==> key_title()[i] != ':');
    assert(forall|i: int| 0 <= i < key_created().len() ==> key_created()[i] != ':');
    assert(forall|i: int| 0 <= i < key_modified().len() ==> key_modified()[i] != ':');
    assert(forall|i: int| 0 <= i < key_tags().len() ==> key_tags()[i] != ':');
    assert(forall|i: int| 0 <= i < key_color().len() ==> key_color()[i] != ':');
    assert(spec_trimmed(v4)) by {
        assert(v4[0] == '[');
        assert(v4[v4.len() - 1] == ']');
    }
    let fm0 = spec_fm_default();
    lemma_apply_key_line(fm0, key_title(), t);
    let fm1 = spec_apply_line(fm0, l1);
    assert(fm1 == FmView { title: t, ..fm0 });
    lemma_apply_key_line(fm1, key_created(), dc);
    let fm2 = spec_apply_line(fm1, l2);
    lemma_parse_u64_digits(n.created_at);
    assert(fm2 == FmView { created: n.created_at, ..fm1 });
    lemma_apply_key_line(fm2, key_modified(), dm);
    let fm3 = spec_apply_line(fm2, l3);
    lemma_parse_u64_digits(n.updated_at);
    assert(fm3 == FmView { modified: n.updated_at, ..fm2 });
    lemma_apply_key_line(fm3, key_tags(), v4);
    let fm4 = spec_apply_line(fm3, l4);
    assert(v4[0] == '[' && v4[v4.len() - 1] == ']' && v4.len() >= 2);
    assert(v4.subrange(1, v4.len() - 1) =~= jn);
    lemma_tags_split_join(Seq::<char>::empty(), n.tags);
    assert(Seq::<char>::empty() + jn =~= jn);
    assert(spec_parse_tags(v4) == n.tags);
    assert(fm4 == FmView { tags: n.tags, ..fm3 });
    assert(spec_fm_of_lines(Seq::<Seq<char>>::empty()) == fm0);
    let s1 = seq![l1];
    let s2 = seq![l1, l2];
    let s3 = seq![l1, l2, l3];
    let s4 = seq![l1, l2, l3, l4];
    assert(s1.drop_last() =~= Seq::<Seq<char>>::empty());
    assert(s1.last() == l1);
    assert(spec_fm_of_lines(s1) == fm1);
    assert(s2.drop_last() =~= s1);
    assert(s2.last() == l2);
    assert(spec_fm_of_lines(s2) == fm2);
    assert(s3.drop_last() =~= s2);
    assert(s3.last() == l3);
    assert(spec_fm_of_lines(s3) == fm3);
    assert(s4.drop_last() =~= s3);
    assert(s4.last() == l4);
    assert(spec_fm_of_lines(s4) == fm4);
    match n.color {
        None => {
            assert(spec_hlines(n) == s4);
            assert(fm4 =~= spec_decoded_fm(n));
        },
        Some(c) => {
            let l5 = spec_line_color(c);
            lemma_apply_key_line(fm4, key_color(), c);
            let fm5 = spec_apply_line(fm4, l5);
            assert(fm5 == FmView { color: Some(c), ..fm4 });
            let s5 = seq![l1, l2, l3, l4, l5];
            assert(s5.drop_last() =~= s4);
            assert(s5.last() == l5);
            assert(spec_fm_of_lines(s5) == fm5);
            assert(spec_hlines(n) == s5);
            assert(fm5 =~= spec_decoded_fm(n));
        },
    }
}

/// Decoding inverts encoding: the document of a clean note parses back to
/// exactly its header fields and its body.
pub proof fn lemma_parse_of_encode(n: NoteView)
    requires
        spec_clean_note(n),
    ensures
        spec_parse_frontmatter(spec_encode(n)) == Some((spec_decoded_fm(n), n.content)),
{
    lemma_regions(n);
    lemma_hblock_lines(n);
    lemma_fold_lines(n);
    let enc = spec_encode(n);
    let x = spec_hblock(n);
    let j = 5 + x.len();
    assert(spec_parse_frontmatter(enc) == Some((spec_fm_of_lines(spec_split_char(x, '\n')),
        n.content)));
}

/// A note rebuilt from a decoded document, keeping a given identity and
/// path: what a scan builds for a file with a header.
pub open spec fn spec_note_of_parts(
    id: Seq<char>,
    path: Option<Seq<char>>,
    fm: FmView,
    body: Seq<char>,
) -> NoteView {
    NoteView {
        id: id,
        title: fm.title,
        content: body,
        path: path,
        created_at: fm.created,
        updated_at: fm.modified,
        tags: fm.tags,
        color: fm.color,
    }
}

/// Round trip: encoding, decoding and encoding again reproduces the first
/// encoding, for any clean note.  The rebuilt note may carry any identity
/// and path, since the document stores neither.
pub proof fn lemma_encode_decode_encode(n: NoteView, id: Seq<char>, path: Option<Seq<char>>)
    requires
        spec_clean_note(n),
    ensures
        spec_parse_frontmatter(spec_encode(n)) is Some,
        ({
            let p = spec_parse_frontmatter(spec_encode(n))->0;
            spec_encode(spec_note_of_parts(id, path, p.0, p.1)) == spec_encode(n)
        }),
{
    lemma_parse_of_encode(n);
    let p = spec_parse_frontmatter(spec_encode(n))->0;
    let n2 = spec_note_of_parts(id, path, p.0, p.1);
    assert(n2.title == n.title);
    assert(n2.content == n.content);
    assert(n2.created_at == n.created_at);
    assert(n2.updated_at == n.updated_at);
    assert(n2.tags == n.tags);
    assert(n2.color == n.color);
}

/// A freshly created note reads back from its own document: decoding the
/// encoded document of `spec_new_note` yields the same title, an empty
/// body, no tags, no color, and both timestamps at the creation time.
pub proof fn lemma_create_round_trip(directory: Seq<char>, title: Seq<char>, now: u64)
    requires
        spec_clean_text(title),
    ensures
        ({
            let nn = spec_new_note(directory, title, now);
            let d = spec_parse_frontmatter(spec_encode(nn));
            let p = d->0;
            let fm = p.0;
            let body = p.1;
            &&& d is Some
            &&& fm.title == title
            &&& body == Seq::<char>::empty()
            &&& fm.tags == Seq::<Seq<char>>::empty()
            &&& fm.color is None
            &&& fm.created == now
            &&& fm.modified == now
        }),
{
    let nn = spec_new_note(directory, title, now);
    assert(spec_clean_note(nn));
    lemma_parse_of_encode(nn);
}

// ---------------------------------------------------------------------------
// Idempotence of listing
// ---------------------------------------------------------------------------

/// The entry stored under an identifier, if any.
pub open spec fn spec_lookup(s: Seq<NoteView>, id: Seq<char>) -> Option<NoteView> {
    match spec_find_note(s, id) {
        Some(i) => Some(s[i]),
        None => None,
    }
}

/// Finding goes by identifiers alone.
proof fn lemma_find_note_ids(s: Seq<NoteView>, t: Seq<NoteView>, id: Seq<char>)
    requires
        s.len() == t.len(),
        forall|k: int| 0 <= k < s.len() ==> s[k].id == t[k].id,
    ensures
        spec_find_note(s, id) == spec_find_note(t, id),
    decreases s.len(),
{
    if s.len() > 0 {
        assert(forall|k: int| 0 <= k < s.drop_first().len() ==> s.drop_first()[k].id
            == t.drop_first()[k].id);
        lemma_find_note_ids(s.drop_first(), t.drop_first(), id);
    }
}

/// How finding behaves on an appended note.
proof fn lemma_find_note_push(s: Seq<NoteView>, n: NoteView, id: Seq<char>)
    ensures
        spec_find_note(s.push(n), id) == (match spec_find_note(s, id) {
            Some(i) => Some(i),
            None => if n.id == id {
                Some(s.len() as int)
            } else {
                None
            },
        }),
    decreases s.len(),
{
    if s.len() == 0 {
        assert(s.push(n)[0] == n);
        assert(s.push(n).drop_first() =~= Seq::<NoteView>::empty());
        assert(spec_find_note(s, id) is None);
        if n.id == id {
            assert(spec_find_note(s.push(n), id) == Some(0int));
        } else {
            assert(spec_find_note(Seq::<NoteView>::empty(), id) is None);
            assert(spec_find_note(s.push(n), id) is None);
        }
    } else {
        assert(s.push(n)[0] == s[0]);
        assert(s.push(n).drop_first() =~= s.drop_first().push(n));
        lemma_find_note_push(s.drop_first(), n, id);
        if s[0].id == id {
            assert(spec_find_note(s.push(n), id) == Some(0int));
            assert(spec_find_note(s, id) == Some(0int));
        } else {
            assert(spec_find_note(s.push(n), id) == (match spec_find_note(
                s.drop_first().push(n),
                id,
            ) {
                None => None,
                Some(i) => Some(i + 1),
            }));
            assert(spec_find_note(s, id) == (match spec_find_note(s.drop_first(), id) {
                None => None,
                Some(i) => Some(i + 1),
            }));
        }
    }
}

/// Writing a note stores it under its identifier and touches no other
/// entry.
proof fn lemma_insert_lookup(s: Seq<NoteView>, n: NoteView)
    ensures
        spec_lookup(spec_insert_note(s, n), n.id) == Some(n),
        forall|id: Seq<char>| id != n.id ==> #[trigger] spec_lookup(spec_insert_note(s, n), id)
            == spec_lookup(s, id),
{
    let r = spec_insert_note(s, n);
    match spec_find_note(s, n.id) {
        Some(i) => {
            crate::repo::lemma_find_note_props(s, n.id);
            assert(forall|k: int| 0 <= k < s.len() ==> r[k].id == s[k].id);
            assert forall|id: Seq<char>| true implies #[trigger] spec_find_note(r, id)
                == spec_find_note(s, id) by {
                lemma_find_note_ids(r, s, id);
            }
            assert(spec_lookup(r, n.id) == Some(n));
            assert forall|id: Seq<char>| id != n.id implies #[trigger] spec_lookup(r, id)
                == spec_lookup(s, id) by {
                match spec_find_note(s, id) {
                    Some(j) => {
                        crate::repo::lemma_find_note_props(s, id);
                        assert(s[j].id == id);
                        assert(j != i);
                        assert(r[j] == s[j]);
                    },
                    None => {},
                }
            }
        },
        None => {
            crate::repo::lemma_find_note_props(s, n.id);
            lemma_find_note_push(s, n, n.id);
            assert(r == s.push(n));
            assert(spec_find_note(r, n.id) == Some(s.len() as int));
            assert(r[s.len() as int] == n);
            assert forall|id: Seq<char>| id != n.id implies #[trigger] spec_lookup(r, id)
                == spec_lookup(s, id) by {
                lemma_find_note_push(s, n, id);
                match spec_find_note(s, id) {
                    Some(j) => {
                        crate::repo::lemma_find_note_props(s, id);
                        assert(r[j] == s[j]);
                    },
                    None => {},
                }
            }
        },
    }
}

/// A scan that never mentions an identifier leaves its entry alone.
proof fn lemma_scan_into_frame(s: Seq<NoteView>, d: Seq<NoteView>, id: Seq<char>)
    requires
        forall|k: int| 0 <= k < d.len() ==> (#[trigger] d[k]).id != id,
    ensures
        spec_lookup(spec_scan_into(s, d), id) == spec_lookup(s, id),
    decreases d.len(),
{
    if d.len() > 0 {
        lemma_insert_lookup(s, d[0]);
        assert(forall|k: int| 0 <= k < d.drop_first().len() ==> (#[trigger] d.drop_first()[
            k
        ]).id != id);
        lemma_scan_into_frame(spec_insert_note(s, d[0]), d.drop_first(), id);
    }
}

/// Writing a note the index already stores under its identifier, with the
/// same value, changes nothing.
proof fn lemma_insert_existing(s: Seq<NoteView>, n: NoteView)
    requires
        spec_lookup(s, n.id) == Some(n),
    ensures
        spec_insert_note(s, n) == s,
{
    match spec_find_note(s, n.id) {
        Some(i) => {
            crate::repo::lemma_find_note_props(s, n.id);
            assert(spec_lookup(s, n.id) == Some(s[i]));
            assert(s[i] == n);
            assert(s.update(i, n) =~= s);
        },
        None => {},
    }
}

/// Reconciling the same decoded scan twice is the same as reconciling it
/// once.
proof fn lemma_scan_into_twice(s: Seq<NoteView>, d: Seq<NoteView>)
    requires
        spec_ids_distinct(d),
    ensures
        spec_scan_into(spec_scan_into(s, d), d) == spec_scan_into(s, d),
    decreases d.len(),
{
    if d.len() > 0 {
        let n0 = d[0];
        let dr = d.drop_first();
        let s1 = spec_insert_note(s, n0);
        let i1 = spec_scan_into(s1, dr);
        assert(spec_ids_distinct(dr)) by {
            assert(forall|k: int| 0 <= k < dr.len() ==> dr[k] == d[k + 1]);
        }
        lemma_scan_into_twice(s1, dr);
        assert(spec_scan_into(s, d) == i1);
        lemma_insert_lookup(s, n0);
        assert(forall|k: int| 0 <= k < dr.len() ==> (#[trigger] dr[k]).id != n0.id) by {
            assert(forall|k: int| 0 <= k < dr.len() ==> dr[k] == d[k + 1]);
        }
        lemma_scan_into_frame(s1, dr, n0.id);
        assert(spec_lookup(i1, n0.id) == Some(n0));
        lemma_insert_existing(i1, n0);
        assert(spec_scan_into(i1, d) == spec_scan_into(spec_insert_note(i1, n0), dr));
        assert(spec_insert_note(i1, n0) == i1);
    }
}

/// Listing an unchanged directory twice returns the same notes in the same
/// order and leaves the index exactly as the first listing left it.  The
/// returned sequence is `spec_sort_notes` of the decoded scan in both
/// calls — a function of the scan alone, by the listing's contract — and
/// reconciling the same scan into the index a second time is the identity.
pub proof fn lemma_list_idempotent(
    index: Seq<NoteView>,
    directory: Seq<char>,
    files: Seq<crate::repo::ScanView>,
    now: u64,
)
    requires
        spec_filenames_distinct(files),
    ensures
        ({
            let d = spec_scan_decode(directory, files, now);
            let i1 = spec_scan_into(index, d);
            spec_scan_into(i1, d) == i1
        }),
{
    let d = spec_scan_decode(directory, files, now);
    lemma_scan_decode_ids(directory, files, now);
    lemma_scan_into_twice(index, d);
}

// ---------------------------------------------------------------------------
// A deleted note never reappears
// ---------------------------------------------------------------------------

/// A listing of a directory that no longer holds a file of the deleted
/// note's name never returns that note: every listed identifier is a
/// scanned file name.
pub proof fn lemma_list_excludes_absent(
    directory: Seq<char>,
    files: Seq<crate::repo::ScanView>,
    now: u64,
    id: Seq<char>,
)
    requires
        spec_filenames_distinct(files),
        forall|m: int| 0 <= m < files.len() ==> (#[trigger] files[m]).filename != id,
    ensures
        ({
            let r = spec_sort_notes(spec_scan_decode(directory, files, now));
            forall|k: int| 0 <= k < r.len() ==> (#[trigger] r[k]).id != id
        }),
{
    let d = spec_scan_decode(directory, files, now);
    let r = spec_sort_notes(d);
    lemma_scan_decode_ids(directory, files, now);
    lemma_sort_notes_contains(d);
    assert forall|k: int| 0 <= k < r.len() implies (#[trigger] r[k]).id != id by {
        assert(r.contains(r[k]));
        assert(d.contains(r[k]));
        let i = choose|i: int| 0 <= i < d.len() && d[i] == r[k];
        let m = choose|m: int| 0 <= m < files.len() && files[m].filename == d[i].id;
        assert(files[m].filename != id);
    }
}

} // verus!
