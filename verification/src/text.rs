//! Character-sequence helpers: trimming, searching and splitting, with their
//! mathematical models over `Seq<char>`.

use vstd::prelude::*;
use vstd::string::StrSliceExecFns;
use crate::trusted::push_char;

verus! {

/// True when `c` is one of the ASCII whitespace characters this library trims.
pub open spec fn spec_is_ws(c: char) -> bool {
    c == ' ' || c == '\t' || c == '\n' || c == '\r'
}

/// The sequence `s` without its leading whitespace.
pub open spec fn spec_trim_start(s: Seq<char>) -> Seq<char>
    decreases s.len(),
{
    if s.len() > 0 && spec_is_ws(s[0]) {
        spec_trim_start(s.drop_first())
    } else {
        s
    }
}

/// The sequence `s` without its trailing whitespace.
pub open spec fn spec_trim_end(s: Seq<char>) -> Seq<char>
    decreases s.len(),
{
    if s.len() > 0 && spec_is_ws(s[s.len() - 1]) {
        spec_trim_end(s.drop_last())
    } else {
        s
    }
}

/// The sequence `s` without leading or trailing whitespace.
pub open spec fn spec_trim(s: Seq<char>) -> Seq<char> {
    spec_trim_end(spec_trim_start(s))
}

/// `s` carries no leading or trailing whitespace.
pub open spec fn spec_trimmed(s: Seq<char>) -> bool {
    s.len() > 0 ==> !spec_is_ws(s[0]) && !spec_is_ws(s[s.len() - 1])
}

/// Index of the first occurrence of `c` in `s` at or after `from`.
pub open spec fn spec_find_char_from(s: Seq<char>, from: nat, c: char) -> Option<nat>
    decreases s.len() - from,
{
    if from >= s.len() {
        None
    } else if s[from as int] == c {
        Some(from)
    } else {
        spec_find_char_from(s, from + 1, c)
    }
}

/// A header delimiter (three hyphens) starts at index `i` of `s`.
pub open spec fn spec_is_delim_at(s: Seq<char>, i: int) -> bool {
    0 <= i && i + 3 <= s.len() && s[i] == '-' && s[i + 1] == '-' && s[i + 2] == '-'
}

/// Index of the first header delimiter in `s` at or after `from`.
pub open spec fn spec_find_delim_from(s: Seq<char>, from: nat) -> Option<nat>
    decreases s.len() - from,
{
    if from + 3 > s.len() {
        None
    } else if spec_is_delim_at(s, from as int) {
        Some(from)
    } else {
        spec_find_delim_from(s, from + 1)
    }
}

/// `s` nowhere contains three consecutive hyphens.
pub open spec fn spec_no_delim(s: Seq<char>) -> bool {
    forall|i: int| !spec_is_delim_at(s, i)
}

/// `s` split at each occurrence of `c`; the separators are dropped and every
/// (possibly empty) piece is kept, so the result is never empty.
pub open spec fn spec_split_char(s: Seq<char>, c: char) -> Seq<Seq<char>>
    decreases s.len(),
{
    match spec_find_char_from(s, 0, c) {
        None => seq![s],
        Some(i) => if i < s.len() {
            seq![s.subrange(0, i as int)] + spec_split_char(
                s.subrange(i as int + 1, s.len() as int),
                c,
            )
        } else {
            seq![s]
        },
    }
}

/// Whitespace to the left of a first non-whitespace character at `k` is all
/// that `spec_trim_start` removes.
pub proof fn lemma_trim_start_index(s: Seq<char>, k: int)
    requires
        0 <= k <= s.len(),
        forall|i: int| 0 <= i < k ==> spec_is_ws(s[i]),
        k < s.len() ==> !spec_is_ws(s[k]),
    ensures
        spec_trim_start(s) == s.subrange(k, s.len() as int),
    decreases k,
{
    if k == 0 {
        assert(s.subrange(0, s.len() as int) =~= s);
    } else {
        lemma_trim_start_index(s.drop_first(), k - 1);
        assert(s.drop_first().subrange(k - 1, s.drop_first().len() as int) =~= s.subrange(
            k,
            s.len() as int,
        ));
    }
}

/// Whitespace to the right of a last non-whitespace character at `k - 1` is
/// all that `spec_trim_end` removes.
pub proof fn lemma_trim_end_index(s: Seq<char>, k: int)
    requires
        0 <= k <= s.len(),
        forall|i: int| k <= i < s.len() ==> spec_is_ws(s[i]),
        k > 0 ==> !spec_is_ws(s[k - 1]),
    ensures
        spec_trim_end(s) == s.subrange(0, k),
    decreases s.len() - k,
{
    if k == s.len() {
        assert(s.subrange(0, k) =~= s);
    } else {
        lemma_trim_end_index(s.drop_last(), k);
        assert(s.drop_last().subrange(0, k) =~= s.subrange(0, k));
    }
}

/// Trimming leaves an already-trimmed sequence as it is.
pub proof fn lemma_trim_of_trimmed(s: Seq<char>)
    requires
        spec_trimmed(s),
    ensures
        spec_trim(s) == s,
{
    if s.len() == 0 {
        assert(spec_trim_start(s) == s);
        assert(spec_trim_end(s) == s);
    } else {
        assert(spec_trim_start(s) == s);
        assert(spec_trim_end(s) == s);
    }
}

/// Trimming a trimmed sequence wrapped in whitespace recovers the sequence.
pub proof fn lemma_trim_wrap(pre: Seq<char>, s: Seq<char>, suf: Seq<char>)
    requires
        forall|i: int| 0 <= i < pre.len() ==> spec_is_ws(pre[i]),
        forall|i: int| 0 <= i < suf.len() ==> spec_is_ws(suf[i]),
        spec_trimmed(s),
    ensures
        spec_trim(pre + s + suf) == s,
{
    let w = pre + s + suf;
    if s.len() == 0 {
        assert(forall|i: int| 0 <= i < w.len() ==> spec_is_ws(w[i]));
        lemma_trim_start_index(w, w.len() as int);
        assert(spec_trim_start(w) =~= Seq::<char>::empty());
        assert(spec_trim_end(Seq::<char>::empty()) =~= Seq::<char>::empty());
        assert(s =~= Seq::<char>::empty());
    } else {
        lemma_trim_start_index(w, pre.len() as int);
        let t = w.subrange(pre.len() as int, w.len() as int);
        assert(t =~= s + suf);
        lemma_trim_end_index(t, s.len() as int);
        assert(t.subrange(0, s.len() as int) =~= s);
    }
}

/// The first delimiter at or after `from` is the one at `j` when no earlier
/// position holds one.
pub proof fn lemma_find_delim_exact(s: Seq<char>, from: nat, j: nat)
    requires
        from <= j,
        spec_is_delim_at(s, j as int),
        forall|k: int| from <= k < j ==> !spec_is_delim_at(s, k),
    ensures
        spec_find_delim_from(s, from) == Some(j),
    decreases j - from,
{
    if from < j {
        lemma_find_delim_exact(s, from + 1, j);
    }
}

/// The first occurrence of `c` at or after `from` is the one at `j` when no
/// earlier position holds one.
pub proof fn lemma_find_char_exact(s: Seq<char>, from: nat, j: nat, c: char)
    requires
        from <= j < s.len(),
        s[j as int] == c,
        forall|k: int| from <= k < j ==> s[k] != c,
    ensures
        spec_find_char_from(s, from, c) == Some(j),
    decreases j - from,
{
    if from < j {
        lemma_find_char_exact(s, from + 1, j, c);
    }
}

/// When `c` occurs nowhere at or after `from`, the search fails.
pub proof fn lemma_find_char_none(s: Seq<char>, from: nat, c: char)
    requires
        forall|k: int| from <= k < s.len() ==> s[k] != c,
    ensures
        spec_find_char_from(s, from, c) is None,
    decreases s.len() - from,
{
    if from < s.len() {
        lemma_find_char_none(s, from + 1, c);
    }
}

/// Splitting a separator-free sequence yields that sequence alone.
pub proof fn lemma_split_whole(s: Seq<char>, c: char)
    requires
        forall|k: int| 0 <= k < s.len() ==> s[k] != c,
    ensures
        spec_split_char(s, c) == seq![s],
{
    lemma_find_char_none(s, 0, c);
}

/// Splitting `a + [c] + b` peels off `a` when `a` is free of `c`.
pub proof fn lemma_split_prepend(a: Seq<char>, b: Seq<char>, c: char)
    requires
        forall|k: int| 0 <= k < a.len() ==> a[k] != c,
    ensures
        spec_split_char(a + seq![c] + b, c) == seq![a] + spec_split_char(b, c),
{
    let w = a + seq![c] + b;
    assert(w[a.len() as int] == c);
    assert(forall|k: int| 0 <= k < a.len() ==> w[k] == a[k]);
    lemma_find_char_exact(w, 0, a.len() as nat, c);
    assert(w.subrange(0, a.len() as int) =~= a);
    assert(w.subrange(a.len() as int + 1, w.len() as int) =~= b);
}

/// Freedom from triple hyphens carries over a concatenation whose boundary
/// does not pair a trailing with a leading hyphen.
pub proof fn lemma_no_delim_concat(a: Seq<char>, b: Seq<char>)
    requires
        spec_no_delim(a),
        spec_no_delim(b),
        !(a.len() > 0 && b.len() > 0 && a[a.len() - 1] == '-' && b[0] == '-'),
    ensures
        spec_no_delim(a + b),
{
    let w = a + b;
    assert forall|i: int| !spec_is_delim_at(w, i) by {
        if 0 <= i && i + 3 <= w.len() {
            if i + 3 <= a.len() {
                assert(!spec_is_delim_at(a, i));
            } else if i >= a.len() {
                assert(!spec_is_delim_at(b, i - a.len()));
                assert(w[i] == b[i - a.len()]);
                assert(w[i + 1] == b[i + 1 - a.len()]);
                assert(w[i + 2] == b[i + 2 - a.len()]);
            } else {
                // the window straddles the boundary: it holds the last
                // character of `a` and the first of `b`, which are not
                // both hyphens
                assert(w[a.len() - 1] == a[a.len() - 1]);
                assert(w[a.len() as int] == b[0]);
            }
        }
    }
}

/// A vector of characters models the same sequence shallowly and deeply.
pub broadcast proof fn lemma_chars_deep_view(w: Vec<char>)
    ensures
        #[trigger] w.deep_view() == w@,
{
    assert(w.deep_view() =~= w@);
}

/// The characters of `s`, one by one.
pub fn to_chars(s: &str) -> (r: Vec<char>)
    ensures
        r@ == s@,
{
    let n = s.unicode_len();
    let mut v: Vec<char> = Vec::new();
    let mut i: usize = 0;
    while i < n
        invariant
            n == s@.len(),
            0 <= i <= n,
            v@ =~= s@.subrange(0, i as int),
        decreases n - i,
    {
        v.push(s.get_char(i));
        i = i + 1;
        assert(v@ =~= s@.subrange(0, i as int));
    }
    assert(v@ =~= s@);
    v
}

/// A `String` holding exactly the characters of `v`.
pub fn chars_to_string(v: &Vec<char>) -> (r: String)
    ensures
        r@ == v@,
{
    let mut s = String::new();
    let mut i: usize = 0;
    while i < v.len()
        invariant
            0 <= i <= v@.len(),
            s@ =~= v@.subrange(0, i as int),
        decreases v@.len() - i,
    {
        push_char(&mut s, v[i]);
        i = i + 1;
        assert(s@ =~= v@.subrange(0, i as int));
    }
    assert(s@ =~= v@);
    s
}

/// The characters of `v` from `from` (inclusive) to `to` (exclusive).
pub fn subrange_chars(v: &Vec<char>, from: usize, to: usize) -> (r: Vec<char>)
    requires
        from <= to <= v@.len(),
    ensures
        r@ == v@.subrange(from as int, to as int),
{
    let mut r: Vec<char> = Vec::new();
    let mut i: usize = from;
    while i < to
        invariant
            from <= i <= to <= v@.len(),
            r@ =~= v@.subrange(from as int, i as int),
        decreases to - i,
    {
        r.push(v[i]);
        i = i + 1;
        assert(r@ =~= v@.subrange(from as int, i as int));
    }
    assert(r@ =~= v@.subrange(from as int, to as int));
    r
}

/// Appends the characters of `src` to `dst`.
pub fn append_chars(dst: &mut Vec<char>, src: &Vec<char>)
    ensures
        final(dst)@ == old(dst)@ + src@,
{
    let mut i: usize = 0;
    while i < src.len()
        invariant
            0 <= i <= src@.len(),
            dst@ =~= old(dst)@ + src@.subrange(0, i as int),
        decreases src@.len() - i,
    {
        dst.push(src[i]);
        i = i + 1;
        assert(dst@ =~= old(dst)@ + src@.subrange(0, i as int));
    }
    assert(dst@ =~= old(dst)@ + src@);
}

/// Character-for-character equality of two vectors.
pub fn eq_chars(a: &Vec<char>, b: &Vec<char>) -> (r: bool)
    ensures
        r == (a@ == b@),
{
    if a.len() != b.len() {
        assert(a@ != b@);
        return false;
    }
    let mut i: usize = 0;
    while i < a.len()
        invariant
            0 <= i <= a@.len(),
            a@.len() == b@.len(),
            forall|k: int| 0 <= k < i ==> a@[k] == b@[k],
        decreases a@.len() - i,
    {
        if a[i] != b[i] {
            return false;
        }
        i = i + 1;
    }
    assert(a@ =~= b@);
    true
}

/// Executable check matching `spec_is_ws`.
pub fn is_ws(c: char) -> (r: bool)
    ensures
        r == spec_is_ws(c),
{
    c == ' ' || c == '\t' || c == '\n' || c == '\r'
}

/// First occurrence of `c` at or after `from`, as `spec_find_char_from`.
pub fn find_char_from(v: &Vec<char>, from: usize, c: char) -> (r: Option<usize>)
    requires
        from <= v@.len(),
    ensures
        (match r {
            Some(j) => spec_find_char_from(v@, from as nat, c) == Some(j as nat) && from <= j
                < v@.len(),
            None => spec_find_char_from(v@, from as nat, c) is None,
        }),
{
    let mut i: usize = from;
    while i < v.len()
        invariant
            from <= i <= v@.len(),
            spec_find_char_from(v@, from as nat, c) == spec_find_char_from(v@, i as nat, c),
        decreases v@.len() - i,
    {
        if v[i] == c {
            return Some(i);
        }
        i = i + 1;
    }
    None
}

/// First header delimiter at or after `from`, as `spec_find_delim_from`.
pub fn find_delim_from(v: &Vec<char>, from: usize) -> (r: Option<usize>)
    requires
        from <= v@.len(),
    ensures
        (match r {
            Some(j) => spec_find_delim_from(v@, from as nat) == Some(j as nat) && from <= j && j
                + 3 <= v@.len(),
            None => spec_find_delim_from(v@, from as nat) is None,
        }),
{
    let mut i: usize = from;
    while v.len() >= 3 && i <= v.len() - 3
        invariant
            from <= i <= v@.len(),
            spec_find_delim_from(v@, from as nat) == spec_find_delim_from(v@, i as nat),
        decreases v@.len() - i,
    {
        if v[i] == '-' && v[i + 1] == '-' && v[i + 2] == '-' {
            assert(spec_is_delim_at(v@, i as int));
            return Some(i);
        }
        assert(!spec_is_delim_at(v@, i as int));
        i = i + 1;
    }
    None
}

/// The characters of `v` without leading or trailing whitespace, as
/// `spec_trim`.
pub fn trim_chars(v: &Vec<char>) -> (r: Vec<char>)
    ensures
        r@ == spec_trim(v@),
{
    let mut a: usize = 0;
    while a < v.len() && is_ws(v[a])
        invariant
            0 <= a <= v@.len(),
            forall|k: int| 0 <= k < a ==> spec_is_ws(v@[k]),
        decreases v@.len() - a,
    {
        a = a + 1;
    }
    proof {
        lemma_trim_start_index(v@, a as int);
    }
    if a == v.len() {
        let r: Vec<char> = Vec::new();
        assert(spec_trim_start(v@) =~= Seq::<char>::empty());
        assert(spec_trim(v@) =~= Seq::<char>::empty());
        return r;
    }
    let ghost t = spec_trim_start(v@);
    let mut b: usize = v.len();
    while b > a && is_ws(v[b - 1])
        invariant
            a <= b <= v@.len(),
            !spec_is_ws(v@[a as int]),
            forall|k: int| b <= k < v@.len() ==> spec_is_ws(v@[k]),
        decreases b,
    {
        b = b - 1;
    }
    // b > a here: v[a] is not whitespace, so the scan stops at or after a + 1
    assert(b > a);
    proof {
        lemma_trim_end_index(t, b - a);
        assert(t.subrange(0, b - a) =~= v@.subrange(a as int, b as int));
    }
    subrange_chars(v, a, b)
}

/// `v` split at each occurrence of `c`, as `spec_split_char`.
pub fn split_char_vec(v: &Vec<char>, c: char) -> (r: Vec<Vec<char>>)
    ensures
        r.deep_view() == spec_split_char(v@, c),
{
    let mut r: Vec<Vec<char>> = Vec::new();
    let mut start: usize = 0;
    proof {
        assert(v@.subrange(0, v@.len() as int) =~= v@);
        assert(r.deep_view() =~~= Seq::<Seq<char>>::empty());
    }
    loop
        invariant
            0 <= start <= v@.len(),
            r.deep_view() + spec_split_char(v@.subrange(start as int, v@.len() as int), c)
                =~~= spec_split_char(v@, c),
        decreases v@.len() - start + 1,
    {
        let ghost rest = v@.subrange(start as int, v@.len() as int);
        match find_char_from(v, start, c) {
            None => {
                let piece = subrange_chars(v, start, v.len());
                proof {
                    lemma_shift_find_none(v@, start as nat, c);
                    assert(spec_split_char(rest, c) =~~= seq![rest]);
                }
                r.push(piece);
                assert(r.deep_view() =~~= spec_split_char(v@, c));
                return r;
            },
            Some(j) => {
                let piece = subrange_chars(v, start, j);
                proof {
                    lemma_shift_find_some(v@, start as nat, j as nat, c);
                    assert(spec_split_char(rest, c) =~~= seq![rest.subrange(0, j - start)]
                        + spec_split_char(rest.subrange(j - start + 1, rest.len() as int), c));
                    assert(rest.subrange(0, j - start) =~= v@.subrange(start as int, j as int));
                    assert(rest.subrange(j - start + 1, rest.len() as int) =~= v@.subrange(
                        j + 1,
                        v@.len() as int,
                    ));
                }
                r.push(piece);
                if j < v.len() {
                    start = j + 1;
                } else {
                    assert(false);
                }
                assert(r.deep_view() + spec_split_char(
                    v@.subrange(start as int, v@.len() as int),
                    c,
                ) =~~= spec_split_char(v@, c));
            },
        }
    }
}

/// A failed search from `from` in `s` is a failed search from 0 in the
/// corresponding suffix.
proof fn lemma_shift_find_none(s: Seq<char>, from: nat, c: char)
    requires
        from <= s.len(),
        spec_find_char_from(s, from, c) is None,
    ensures
        spec_find_char_from(s.subrange(from as int, s.len() as int), 0, c) is None,
{
    lemma_find_none_chars(s, from, c);
    let rest = s.subrange(from as int, s.len() as int);
    assert(forall|k: int| 0 <= k < rest.len() ==> rest[k] == s[from + k]);
    lemma_find_char_none(rest, 0, c);
}

/// A successful search from `from` in `s` maps to index `j - from` in the
/// corresponding suffix.
proof fn lemma_shift_find_some(s: Seq<char>, from: nat, j: nat, c: char)
    requires
        from <= s.len(),
        spec_find_char_from(s, from, c) == Some(j),
    ensures
        from <= j < s.len(),
        spec_find_char_from(s.subrange(from as int, s.len() as int), 0, c) == Some((j - from) as nat),
{
    lemma_find_some_chars(s, from, j, c);
    let rest = s.subrange(from as int, s.len() as int);
    assert(forall|k: int| 0 <= k < rest.len() ==> rest[k] == s[from + k]);
    assert(rest[j - from] == c);
    lemma_find_char_exact(rest, 0, (j - from) as nat, c);
}

/// A failed search means the character occurs nowhere at or after `from`.
pub proof fn lemma_find_none_chars(s: Seq<char>, from: nat, c: char)
    requires
        spec_find_char_from(s, from, c) is None,
    ensures
        forall|k: int| from <= k < s.len() ==> s[k] != c,
    decreases s.len() - from,
{
    if from < s.len() {
        lemma_find_none_chars(s, from + 1, c);
    }
}

/// A successful search returns the first occurrence at or after `from`.
pub proof fn lemma_find_some_chars(s: Seq<char>, from: nat, j: nat, c: char)
    requires
        spec_find_char_from(s, from, c) == Some(j),
    ensures
        from <= j < s.len(),
        s[j as int] == c,
        forall|k: int| from <= k < j ==> s[k] != c,
    decreases s.len() - from,
{
    if from < s.len() && s[from as int] != c {
        lemma_find_some_chars(s, from + 1, j, c);
    }
}

} // verus!
