//! The filename and identity generator: a collision-resistant, human-legible
//! file name derived from a title and a creation time, plus the predicates
//! that recognize note files and take their stems.

use vstd::prelude::*;
use crate::digits::{spec_u64_digits, u64_to_chars};
use crate::text::{to_chars, chars_to_string, subrange_chars, append_chars};

verus! {

/// The lower-case form of an ASCII letter; any other character is unchanged.
pub open spec fn spec_lower_char(c: char) -> char {
    if c == 'A' {
        'a'
    } else if c == 'B' {
        'b'
    } else if c == 'C' {
        'c'
    } else if c == 'D' {
        'd'
    } else if c == 'E' {
        'e'
    } else if c == 'F' {
        'f'
    } else if c == 'G' {
        'g'
    } else if c == 'H' {
        'h'
    } else if c == 'I' {
        'i'
    } else if c == 'J' {
        'j'
    } else if c == 'K' {
        'k'
    } else if c == 'L' {
        'l'
    } else if c == 'M' {
        'm'
    } else if c == 'N' {
        'n'
    } else if c == 'O' {
        'o'
    } else if c == 'P' {
        'p'
    } else if c == 'Q' {
        'q'
    } else if c == 'R' {
        'r'
    } else if c == 'S' {
        's'
    } else if c == 'T' {
        't'
    } else if c == 'U' {
        'u'
    } else if c == 'V' {
        'v'
    } else if c == 'W' {
        'w'
    } else if c == 'X' {
        'x'
    } else if c == 'Y' {
        'y'
    } else if c == 'Z' {
        'z'
    } else {
        c
    }
}

/// A character the slug keeps: a lower-case ASCII letter, a digit, or the
/// joining hyphen.
pub open spec fn spec_slug_keep(c: char) -> bool {
    (97 <= c as u32 <= 122) || (48 <= c as u32 <= 57) || c == '-'
}

/// One title character mapped for the slug: spaces become hyphens, letters
/// are lowered.
pub open spec fn spec_slug_map(c: char) -> char {
    if c == ' ' {
        '-'
    } else {
        spec_lower_char(c)
    }
}

/// The slug of a title: each character lowered, spaces joined by hyphens,
/// and everything that is neither ASCII alphanumeric nor a hyphen stripped.
pub open spec fn spec_slug(title: Seq<char>) -> Seq<char>
    decreases title.len(),
{
    if title.len() == 0 {
        Seq::<char>::empty()
    } else {
        let m = spec_slug_map(title.last());
        spec_slug(title.drop_last()) + (if spec_slug_keep(m) {
            seq![m]
        } else {
            Seq::<char>::empty()
        })
    }
}

/// `"note-"`, the fixed tag that prefixes every generated file name.
pub open spec fn lit_note_prefix() -> Seq<char> {
    seq!['n', 'o', 't', 'e', '-']
}

/// `".md"`, the note file extension.
pub open spec fn lit_md_ext() -> Seq<char> {
    seq!['.', 'm', 'd']
}

/// The generated file name: fixed tag, millisecond timestamp, slug,
/// extension.
pub open spec fn spec_filename(title: Seq<char>, now_millis: u64) -> Seq<char> {
    lit_note_prefix() + spec_u64_digits(now_millis as nat) + seq!['-'] + spec_slug(title)
        + lit_md_ext()
}

/// A file name with the note extension, compared case-insensitively, with a
/// nonempty stem before the final dot.
pub open spec fn spec_is_note_file(name: Seq<char>) -> bool {
    name.len() >= 4 && name[name.len() - 3] == '.' && (name[name.len() - 2] == 'm' || name[
        name.len() - 2
    ] == 'M') && (name[name.len() - 1] == 'd' || name[name.len() - 1] == 'D')
}

/// Index of the last dot of `name` that is not its first character, if any.
pub open spec fn spec_find_last_dot(name: Seq<char>) -> Option<int>
    decreases name.len(),
{
    if name.len() <= 1 {
        None
    } else if name[name.len() - 1] == '.' {
        Some(name.len() - 1)
    } else {
        spec_find_last_dot(name.drop_last())
    }
}

/// The file name without its extension: the portion before the last dot, or
/// the whole name when there is no dot past the first character.
pub open spec fn spec_file_stem(name: Seq<char>) -> Seq<char> {
    match spec_find_last_dot(name) {
        Some(i) => name.subrange(0, i),
        None => name,
    }
}

/// Executable form of `spec_lower_char`.
fn lower_char(c: char) -> (r: char)
    ensures
        r == spec_lower_char(c),
{
    if c == 'A' {
        'a'
    } else if c == 'B' {
        'b'
    } else if c == 'C' {
        'c'
    } else if c == 'D' {
        'd'
    } else if c == 'E' {
        'e'
    } else if c == 'F' {
        'f'
    } else if c == 'G' {
        'g'
    } else if c == 'H' {
        'h'
    } else if c == 'I' {
        'i'
    } else if c == 'J' {
        'j'
    } else if c == 'K' {
        'k'
    } else if c == 'L' {
        'l'
    } else if c == 'M' {
        'm'
    } else if c == 'N' {
        'n'
    } else if c == 'O' {
        'o'
    } else if c == 'P' {
        'p'
    } else if c == 'Q' {
        'q'
    } else if c == 'R' {
        'r'
    } else if c == 'S' {
        's'
    } else if c == 'T' {
        't'
    } else if c == 'U' {
        'u'
    } else if c == 'V' {
        'v'
    } else if c == 'W' {
        'w'
    } else if c == 'X' {
        'x'
    } else if c == 'Y' {
        'y'
    } else if c == 'Z' {
        'z'
    } else {
        c
    }
}

/// The slug of a title, matching `spec_slug`.
pub fn slug_of(title: &String) -> (r: Vec<char>)
    ensures
        r@ == spec_slug(title@),
{
    let tv = to_chars(title.as_str());
    let mut r: Vec<char> = Vec::new();
    let mut i: usize = 0;
    assert(r@ =~= spec_slug(tv@.subrange(0, 0)));
    while i < tv.len()
        invariant
            0 <= i <= tv@.len(),
            tv@ == title@,
            r@ == spec_slug(tv@.subrange(0, i as int)),
        decreases tv@.len() - i,
    {
        let ghost pre = tv@.subrange(0, i as int);
        let ghost cur = tv@.subrange(0, i as int + 1);
        let c = tv[i];
        let m = if c == ' ' {
            '-'
        } else {
            lower_char(c)
        };
        let mu = m as u32;
        if (97 <= mu && mu <= 122) || (48 <= mu && mu <= 57) || m == '-' {
            r.push(m);
        }
        proof {
            assert(cur.drop_last() =~= pre);
            assert(cur.last() == tv@[i as int]);
        }
        i = i + 1;
        assert(r@ =~= spec_slug(tv@.subrange(0, i as int)));
    }
    assert(tv@.subrange(0, tv@.len() as int) =~= tv@);
    r
}

/// Generates the backing file name for a new note: the fixed tag, the
/// creation time in milliseconds, and the sanitized slug of the title.
/// Millisecond resolution is the disambiguation for identically-titled
/// notes created close together.
pub fn generate_filename(title: &String, now_millis: u64) -> (r: String)
    ensures
        r@ == spec_filename(title@, now_millis),
{
    let mut v: Vec<char> = Vec::new();
    v.push('n');
    v.push('o');
    v.push('t');
    v.push('e');
    v.push('-');
    assert(v@ =~= lit_note_prefix());
    let ts = u64_to_chars(now_millis);
    append_chars(&mut v, &ts);
    v.push('-');
    let s = slug_of(title);
    append_chars(&mut v, &s);
    v.push('.');
    v.push('m');
    v.push('d');
    assert(v@ =~= spec_filename(title@, now_millis));
    chars_to_string(&v)
}

/// True when `name` is a note file: its extension is `.md`, compared
/// case-insensitively, and a stem precedes it.
pub fn is_note_file(name: &String) -> (r: bool)
    ensures
        r == spec_is_note_file(name@),
{
    let v = to_chars(name.as_str());
    let n = v.len();
    if n < 4 {
        return false;
    }
    v[n - 3] == '.' && (v[n - 2] == 'm' || v[n - 2] == 'M') && (v[n - 1] == 'd' || v[n - 1] == 'D')
}

/// The stem of a file name, matching `spec_file_stem`.
pub fn file_stem(name: &String) -> (r: String)
    ensures
        r@ == spec_file_stem(name@),
{
    let v = to_chars(name.as_str());
    let n = v.len();
    if n <= 1 {
        proof {
            assert(spec_find_last_dot(v@) is None);
        }
        return chars_to_string(&v);
    }
    let mut i: usize = n;
    proof {
        assert(v@.subrange(0, n as int) =~= v@);
    }
    while i > 1
        invariant
            1 <= i <= v@.len(),
            v@.len() > 1,
            v@ == name@,
            spec_find_last_dot(v@) == spec_find_last_dot(v@.subrange(0, i as int)),
        decreases i,
    {
        proof {
            let cur = v@.subrange(0, i as int);
            assert(cur.drop_last() =~= v@.subrange(0, i as int - 1));
        }
        if v[i - 1] == '.' {
            proof {
                let cur = v@.subrange(0, i as int);
                assert(cur[cur.len() - 1] == '.');
                assert(spec_find_last_dot(cur) == Some(cur.len() - 1));
                assert(spec_find_last_dot(v@) == Some(i as int - 1));
                assert(spec_file_stem(v@) == v@.subrange(0, i as int - 1));
                assert(v@ == name@);
            }
            let r = chars_to_string(&subrange_chars(&v, 0, i - 1));
            assert(r@ == spec_file_stem(name@));
            return r;
        }
        i = i - 1;
    }
    proof {
        let cur = v@.subrange(0, 1);
        assert(cur.len() <= 1);
        assert(spec_find_last_dot(cur) is None);
        assert(spec_find_last_dot(v@) is None);
    }
    chars_to_string(&v)
}

} // verus!
