use vstd::prelude::*;
use crate::note::NoteView;
use crate::codec::{canonical, note_of, render_note_rep};
use crate::store::{sorted_desc, id_matches};

verus! {

/// Creating a note and then listing the store shows the new note exactly
/// once, under its identifier, with the given title, content and tags: any
/// listing of the store extended by a note whose identifier is fresh holds
/// exactly one entry with that identifier, and that entry is the new note.
pub proof fn lemma_create_then_list(s: Seq<NoteView>, new: NoteView, listed: Seq<NoteView>)
    requires
        forall|i: int| 0 <= i < s.len() ==> (#[trigger] s[i]).id != new.id,
        listed.to_multiset() == s.push(new).to_multiset(),
    ensures
        listed.to_multiset().count(new) == 1,
        exists|i: int| 0 <= i < listed.len() && #[trigger] listed[i] == new,
        forall|i: int|
            0 <= i < listed.len() && (#[trigger] listed[i]).id == new.id ==> listed[i] == new,
{
    broadcast use vstd::seq_lib::group_to_multiset_ensures;

    assert(s.push(new).to_multiset() == s.to_multiset().insert(new));
    assert(s.to_multiset().count(new) == 0) by {
        if s.to_multiset().count(new) > 0 {
            assert(s.contains(new));
            let i = choose|i: int| 0 <= i < s.len() && s[i] == new;
            assert(s[i].id == new.id);
        }
    }
    assert(listed.to_multiset().count(new) == 1);
    assert(listed.contains(new));
    assert forall|i: int|
        0 <= i < listed.len() && (#[trigger] listed[i]).id == new.id implies listed[i] == new by {
        assert(listed.contains(listed[i]));
        assert(listed.to_multiset().count(listed[i]) > 0);
        assert(s.push(new).to_multiset().count(listed[i]) > 0);
        assert(s.push(new).contains(listed[i]));
        let j = choose|j: int| 0 <= j < s.push(new).len() && s.push(new)[j] == listed[i];
        if j < s.len() {
            assert(s[j].id == listed[i].id);
        }
    }
}

/// Serializing a note and reading the record back yields the note again,
/// field for field: rendering is injective, so the record read out of a
/// note's rendering is that note.
pub proof fn lemma_render_round_trip(nv: NoteView)
    ensures
        canonical(render_note_rep(nv)),
        note_of(render_note_rep(nv)) == nv,
{
    assert(render_note_rep(nv) == render_note_rep(nv));
    assert(canonical(render_note_rep(nv)));
    let picked = note_of(render_note_rep(nv));
    assert(render_note_rep(picked) == render_note_rep(nv));
    crate::codec::lemma_render_injective(picked, nv);
}

/// Deleting the unique note a prefix matches removes that note and no
/// other: a listing of the store with entry `i` removed holds one entry
/// fewer, no entry under the deleted identifier, and every other note
/// still as often as before.
pub proof fn lemma_delete_removes(s: Seq<NoteView>, i: int, listed: Seq<NoteView>)
    requires
        0 <= i < s.len(),
        forall|j: int, k: int|
            0 <= j < k < s.len() ==> (#[trigger] s[j]).id != (#[trigger] s[k]).id,
        listed.to_multiset() == s.remove(i).to_multiset(),
    ensures
        listed.len() == s.len() - 1,
        forall|q: int| 0 <= q < listed.len() ==> (#[trigger] listed[q]).id != s[i].id,
        forall|x: NoteView| x != s[i] ==> listed.to_multiset().count(x) == s.to_multiset().count(x),
{
    broadcast use vstd::seq_lib::group_to_multiset_ensures;

    assert(s.remove(i).to_multiset() == s.to_multiset().remove(s[i]));
    assert(listed.len() == listed.to_multiset().len());
    assert(s.remove(i).to_multiset().len() == s.remove(i).len());
    assert forall|q: int| 0 <= q < listed.len() implies (#[trigger] listed[q]).id != s[i].id by {
        assert(listed.contains(listed[q]));
        assert(listed.to_multiset().count(listed[q]) > 0);
        if listed[q] == s[i] {
            assert(s.to_multiset().count(s[i]) == 1) by {
                if s.to_multiset().count(s[i]) >= 2 {
                    s.lemma_multiset_has_no_duplicates_conv();
                }
            }
            assert(s.remove(i).to_multiset().count(s[i]) == 0);
            assert(false);
        } else {
            assert(s.remove(i).to_multiset().count(listed[q]) > 0);
            assert(s.remove(i).contains(listed[q]));
            let j = choose|j: int| 0 <= j < s.remove(i).len() && s.remove(i)[j] == listed[q];
            let oj = if j < i {
                j
            } else {
                j + 1
            };
            assert(s[oj] == listed[q]);
            if listed[q].id == s[i].id {
                if oj < i {
                    assert(s[oj].id != s[i].id);
                } else {
                    assert(s[i].id != s[oj].id);
                }
                assert(false);
            }
        }
    }
}

/// Listing preserves order by creation time: a sorted listing of exactly
/// three notes created at strictly increasing times shows them newest
/// first.
pub proof fn lemma_list_order_three(
    a: NoteView,
    b: NoteView,
    c: NoteView,
    listed: Seq<NoteView>,
)
    requires
        a.created_at < b.created_at,
        b.created_at < c.created_at,
        sorted_desc(listed),
        listed.to_multiset() == seq![a, b, c].to_multiset(),
    ensures
        listed == seq![c, b, a],
{
    broadcast use vstd::seq_lib::group_to_multiset_ensures;

    let base = seq![a, b, c];
    assert(listed.len() == listed.to_multiset().len());
    assert(base.to_multiset().len() == base.len());
    assert(listed.len() == 3);
    assert forall|q: int| 0 <= q < 3 implies base.to_multiset().count(#[trigger] listed[q])
        > 0 by {
        assert(listed.contains(listed[q]));
        assert(listed.to_multiset().count(listed[q]) > 0);
    }
    assert forall|q: int| 0 <= q < 3 implies listed[q] == a || listed[q] == b || listed[q]
        == c by {
        assert(base.to_multiset().count(listed[q]) > 0);
        assert(base.contains(listed[q]));
        let j = choose|j: int| 0 <= j < 3 && base[j] == listed[q];
        assert(base[0] == a && base[1] == b && base[2] == c);
    }
    assert(base.contains(c) && base.contains(b) && base.contains(a)) by {
        assert(base[2] == c && base[1] == b && base[0] == a);
    }
    assert(listed.to_multiset().count(c) > 0 && listed.to_multiset().count(b) > 0
        && listed.to_multiset().count(a) > 0);
    assert(listed.contains(c) && listed.contains(b) && listed.contains(a));
    let qc = choose|q: int| 0 <= q < 3 && listed[q] == c;
    let qb = choose|q: int| 0 <= q < 3 && listed[q] == b;
    let qa = choose|q: int| 0 <= q < 3 && listed[q] == a;
    assert(qc != qb && qc != qa && qb != qa);
    assert(qc == 0) by {
        if qc > 0 {
            assert(listed[0].created_at >= listed[qc].created_at);
            assert(listed[0] == c);
            assert(qc != 0 && listed[qc] == c && listed[0] == c);
            assert(listed.to_multiset().count(c) >= 2) by {
                let front = listed.take(qc);
                let back = listed.skip(qc);
                assert(listed =~= front + back);
                vstd::seq_lib::lemma_multiset_commutative(front, back);
                assert(front[0] == c);
                assert(front.contains(c));
                assert(front.to_multiset().count(c) > 0);
                assert(back[0] == c);
                assert(back.contains(c));
                assert(back.to_multiset().count(c) > 0);
            }
            assert(base.to_multiset().count(c) == 1);
            assert(false);
        }
    }
    assert(qb == 1) by {
        if qb == 2 {
            assert(listed[1] == a);
            assert(listed[1].created_at >= listed[2].created_at);
            assert(false);
        }
    }
    assert(qa == 2);
    assert(listed =~= seq![c, b, a]);
}

/// A prefix no identifier starts with matches no note, so resolving it
/// finds nothing and the store is left as it stands; conversely a prefix
/// matching exactly one note resolves to it. These outcomes stand in the
/// contract of `delete_note`; this law restates the count on an empty
/// match set.
pub proof fn lemma_match_count_none(s: Seq<NoteView>, prefix: Seq<char>)
    requires
        forall|i: int| 0 <= i < s.len() ==> !id_matches(#[trigger] s[i], prefix),
    ensures
        crate::store::match_count(s, prefix) == 0,
    decreases s.len(),
{
    if s.len() > 0 {
        lemma_match_count_none(s.drop_last(), prefix);
        assert(forall|i: int| 0 <= i < s.len() - 1 ==> s.drop_last()[i] == s[i]);
    }
}

} // verus!
