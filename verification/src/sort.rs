//! Ordering of listed notes: newest first by `updated_at`, ties keeping
//! their existing order.  The executable sort matches a functional
//! insertion-sort model, so its result is fully determined by its input.

use vstd::prelude::*;
use crate::note::{Note, NoteView};

verus! {

/// `s` is ordered by `updated_at` descending.
pub open spec fn spec_sorted_desc(s: Seq<NoteView>) -> bool {
    forall|i: int, j: int| 0 <= i < j < s.len() ==> s[i].updated_at >= s[j].updated_at
}

/// `n` placed after every element at least as new: the stable insertion
/// position.
pub open spec fn spec_insert_sorted(t: Seq<NoteView>, n: NoteView) -> Seq<NoteView>
    decreases t.len(),
{
    if t.len() == 0 {
        seq![n]
    } else if n.updated_at > t[0].updated_at {
        seq![n] + t
    } else {
        seq![t[0]] + spec_insert_sorted(t.drop_first(), n)
    }
}

/// The notes ordered by `updated_at` descending, ties keeping the order of
/// `s` (stable insertion sort).
pub open spec fn spec_sort_notes(s: Seq<NoteView>) -> Seq<NoteView>
    decreases s.len(),
{
    if s.len() == 0 {
        Seq::<NoteView>::empty()
    } else {
        spec_insert_sorted(spec_sort_notes(s.drop_last()), s.last())
    }
}

/// The insertion point of `n` is the first index whose element is older.
proof fn lemma_insert_sorted_at(t: Seq<NoteView>, n: NoteView, j: int)
    requires
        0 <= j <= t.len(),
        forall|k: int| 0 <= k < j ==> t[k].updated_at >= n.updated_at,
        j < t.len() ==> n.updated_at > t[j].updated_at,
    ensures
        spec_insert_sorted(t, n) == t.subrange(0, j) + seq![n] + t.subrange(j, t.len() as int),
    decreases j,
{
    if j == 0 {
        if t.len() == 0 {
            assert(spec_insert_sorted(t, n) =~= t.subrange(0, 0) + seq![n] + t.subrange(
                0,
                t.len() as int,
            ));
        } else {
            assert(spec_insert_sorted(t, n) =~= t.subrange(0, 0) + seq![n] + t.subrange(
                0,
                t.len() as int,
            ));
        }
    } else {
        let d = t.drop_first();
        lemma_insert_sorted_at(d, n, j - 1);
        assert(d.subrange(0, j - 1) =~= t.subrange(1, j));
        assert(d.subrange(j - 1, d.len() as int) =~= t.subrange(j, t.len() as int));
        assert(seq![t[0]] + (d.subrange(0, j - 1) + seq![n] + d.subrange(j - 1, d.len() as int))
            =~= t.subrange(0, j) + seq![n] + t.subrange(j, t.len() as int));
    }
}

/// Inserting into a sorted sequence keeps it sorted.
proof fn lemma_insert_sorted_sorted(t: Seq<NoteView>, n: NoteView)
    requires
        spec_sorted_desc(t),
    ensures
        spec_sorted_desc(spec_insert_sorted(t, n)),
    decreases t.len(),
{
    if t.len() == 0 {
    } else if n.updated_at > t[0].updated_at {
        let r = seq![n] + t;
        assert forall|i: int, j: int| 0 <= i < j < r.len() implies r[i].updated_at
            >= r[j].updated_at by {
            if i > 0 {
                assert(t[i - 1].updated_at >= t[j - 1].updated_at);
            } else {
                assert(t[0].updated_at >= t[j - 1].updated_at);
            }
        }
    } else {
        let d = t.drop_first();
        assert(spec_sorted_desc(d));
        lemma_insert_sorted_sorted(d, n);
        let rd = spec_insert_sorted(d, n);
        let r = seq![t[0]] + rd;
        lemma_insert_sorted_contains_all(d, n);
        assert forall|i: int, j: int| 0 <= i < j < r.len() implies r[i].updated_at
            >= r[j].updated_at by {
            if i > 0 {
                assert(rd[i - 1].updated_at >= rd[j - 1].updated_at);
            } else {
                // every element of the inserted tail is `n` or came from `d`,
                // and `t[0]` is at least as new as either
                assert(rd.contains(rd[j - 1]));
            }
        }
    }
}

/// Every element of an insertion result is the inserted note or one of the
/// originals, and conversely.
proof fn lemma_insert_sorted_contains_all(t: Seq<NoteView>, n: NoteView)
    ensures
        forall|x: NoteView| #[trigger] spec_insert_sorted(t, n).contains(x) <==> (t.contains(x)
            || x == n),
        spec_insert_sorted(t, n).len() == t.len() + 1,
    decreases t.len(),
{
    let r = spec_insert_sorted(t, n);
    if t.len() == 0 {
        assert forall|x: NoteView| #[trigger] r.contains(x) implies (t.contains(x) || x == n) by {
            let i = choose|i: int| 0 <= i < r.len() && r[i] == x;
            assert(r[0] == n);
        }
        assert forall|x: NoteView| (t.contains(x) || x == n) implies #[trigger] r.contains(x) by {
            assert(r[0] == n);
        }
    } else if n.updated_at > t[0].updated_at {
        assert forall|x: NoteView| #[trigger] r.contains(x) implies (t.contains(x) || x == n) by {
            let i = choose|i: int| 0 <= i < r.len() && r[i] == x;
            if i > 0 {
                assert(t[i - 1] == x);
            }
        }
        assert forall|x: NoteView| (t.contains(x) || x == n) implies #[trigger] r.contains(x) by {
            if x == n {
                assert(r[0] == x);
            } else {
                let i = choose|i: int| 0 <= i < t.len() && t[i] == x;
                assert(r[i + 1] == x);
            }
        }
    } else {
        let d = t.drop_first();
        lemma_insert_sorted_contains_all(d, n);
        let rd = spec_insert_sorted(d, n);
        assert forall|x: NoteView| #[trigger] r.contains(x) implies (t.contains(x) || x == n) by {
            let i = choose|i: int| 0 <= i < r.len() && r[i] == x;
            if i == 0 {
                assert(t[0] == x);
            } else {
                assert(rd[i - 1] == x);
                assert(rd.contains(x));
                if d.contains(x) {
                    let k = choose|k: int| 0 <= k < d.len() && d[k] == x;
                    assert(t[k + 1] == x);
                }
            }
        }
        assert forall|x: NoteView| (t.contains(x) || x == n) implies #[trigger] r.contains(x) by {
            if x == n {
                assert(rd.contains(x));
                let k = choose|k: int| 0 <= k < rd.len() && rd[k] == x;
                assert(r[k + 1] == x);
            } else {
                let i = choose|i: int| 0 <= i < t.len() && t[i] == x;
                if i == 0 {
                    assert(r[0] == x);
                } else {
                    assert(d[i - 1] == x);
                    assert(d.contains(x));
                    assert(rd.contains(x));
                    let k = choose|k: int| 0 <= k < rd.len() && rd[k] == x;
                    assert(r[k + 1] == x);
                }
            }
        }
    }
}

/// The sort is ordered by `updated_at` descending.
pub proof fn lemma_sort_notes_sorted(s: Seq<NoteView>)
    ensures
        spec_sorted_desc(spec_sort_notes(s)),
    decreases s.len(),
{
    if s.len() > 0 {
        lemma_sort_notes_sorted(s.drop_last());
        lemma_insert_sorted_sorted(spec_sort_notes(s.drop_last()), s.last());
    }
}

/// The sort holds exactly the notes of its input, and as many.
pub proof fn lemma_sort_notes_contains(s: Seq<NoteView>)
    ensures
        forall|x: NoteView| #[trigger] spec_sort_notes(s).contains(x) <==> s.contains(x),
        spec_sort_notes(s).len() == s.len(),
    decreases s.len(),
{
    if s.len() > 0 {
        let d = s.drop_last();
        lemma_sort_notes_contains(d);
        lemma_insert_sorted_contains_all(spec_sort_notes(d), s.last());
        assert forall|x: NoteView| #[trigger] spec_sort_notes(s).contains(x) implies s.contains(
            x,
        ) by {
            if d.contains(x) {
                let k = choose|k: int| 0 <= k < d.len() && d[k] == x;
                assert(s[k] == x);
            } else {
                assert(x == s.last());
                assert(s[s.len() - 1] == x);
            }
        }
        assert forall|x: NoteView| s.contains(x) implies #[trigger] spec_sort_notes(s).contains(
            x,
        ) by {
            let i = choose|i: int| 0 <= i < s.len() && s[i] == x;
            if i < s.len() - 1 {
                assert(d[i] == x);
                assert(d.contains(x));
            } else {
                assert(x == s.last());
            }
        }
    }
}

/// The sort is a permutation: it holds each note exactly as often as its
/// input does.
pub proof fn lemma_sort_notes_multiset(s: Seq<NoteView>)
    ensures
        spec_sort_notes(s).to_multiset() == s.to_multiset(),
    decreases s.len(),
{
    broadcast use vstd::seq_lib::group_to_multiset_ensures;

    if s.len() > 0 {
        let d = s.drop_last();
        lemma_sort_notes_multiset(d);
        lemma_insert_sorted_multiset(spec_sort_notes(d), s.last());
        assert(s =~= d.push(s.last()));
        assert(s.to_multiset() =~= d.to_multiset().insert(s.last()));
    }
}

/// Inserting a note adds exactly it to the contents.
proof fn lemma_insert_sorted_multiset(t: Seq<NoteView>, n: NoteView)
    ensures
        spec_insert_sorted(t, n).to_multiset() == t.to_multiset().insert(n),
    decreases t.len(),
{
    broadcast use vstd::seq_lib::group_to_multiset_ensures;

    let r = spec_insert_sorted(t, n);
    if t.len() == 0 {
        assert(r =~= Seq::<NoteView>::empty().push(n));
        assert(r.to_multiset() =~= t.to_multiset().insert(n));
    } else if n.updated_at > t[0].updated_at {
        vstd::seq_lib::lemma_multiset_commutative(seq![n], t);
        assert(seq![n] =~= Seq::<NoteView>::empty().push(n));
        assert(r.to_multiset() =~= t.to_multiset().insert(n));
    } else {
        let d = t.drop_first();
        lemma_insert_sorted_multiset(d, n);
        vstd::seq_lib::lemma_multiset_commutative(seq![t[0]], spec_insert_sorted(d, n));
        assert(seq![t[0]] =~= Seq::<NoteView>::empty().push(t[0]));
        assert(t =~= seq![t[0]] + d);
        vstd::seq_lib::lemma_multiset_commutative(seq![t[0]], d);
        assert(r.to_multiset() =~= t.to_multiset().insert(n));
    }
}

/// Stability at its plainest: a sequence already ordered newest first is
/// left exactly as it is, so equal keys keep their existing order.
pub proof fn lemma_sort_notes_of_sorted(s: Seq<NoteView>)
    requires
        spec_sorted_desc(s),
    ensures
        spec_sort_notes(s) == s,
    decreases s.len(),
{
    if s.len() > 0 {
        let d = s.drop_last();
        assert(spec_sorted_desc(d));
        lemma_sort_notes_of_sorted(d);
        assert(forall|k: int| 0 <= k < d.len() ==> d[k].updated_at >= s.last().updated_at);
        lemma_insert_sorted_at(d, s.last(), d.len() as int);
        assert(d.subrange(0, d.len() as int) =~= d);
        assert(d.subrange(d.len() as int, d.len() as int) =~= Seq::<NoteView>::empty());
        assert(spec_insert_sorted(d, s.last()) =~= s);
    }
}

/// Sorts the notes newest first, ties keeping their order, matching
/// `spec_sort_notes`.
pub fn sort_notes(v: Vec<Note>) -> (r: Vec<Note>)
    ensures
        r.deep_view() == spec_sort_notes(v.deep_view()),
{
    let ghost sv = v.deep_view();
    let mut out: Vec<Note> = Vec::new();
    let mut i: usize = 0;
    proof {
        assert(sv.subrange(0, 0) =~= Seq::<NoteView>::empty());
        assert(out.deep_view() =~~= spec_sort_notes(sv.subrange(0, 0)));
    }
    // iterate by taking the first remaining element each round, so the
    // original order of equal keys is preserved
    let mut src = v;
    while i < src.len()
        invariant
            0 <= i <= src@.len(),
            sv == src.deep_view(),
            sv.len() == src@.len(),
            out.deep_view() == spec_sort_notes(sv.subrange(0, i as int)),
        decreases src@.len() - i,
    {
        let ghost pre = sv.subrange(0, i as int);
        let ghost cur = sv.subrange(0, i as int + 1);
        let n = src[i].duplicate();
        let mut j: usize = 0;
        while j < out.len() && out[j].updated_at >= n.updated_at
            invariant
                0 <= j <= out@.len(),
                n@ == sv[i as int],
                forall|k: int| 0 <= k < j ==> out.deep_view()[k].updated_at >= n@.updated_at,
            decreases out@.len() - j,
        {
            j = j + 1;
        }
        proof {
            lemma_insert_sorted_at(out.deep_view(), n@, j as int);
            assert(cur.drop_last() =~= pre);
            assert(cur.last() == sv[i as int]);
        }
        let ghost out_before = out.deep_view();
        out.insert(j, n);
        proof {
            assert(out.deep_view() =~~= out_before.subrange(0, j as int) + seq![sv[i as int]]
                + out_before.subrange(j as int, out_before.len() as int));
            assert(out.deep_view() =~~= spec_sort_notes(cur));
        }
        i = i + 1;
    }
    proof {
        assert(sv.subrange(0, sv.len() as int) =~= sv);
    }
    out
}

} // verus!
