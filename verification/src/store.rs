use vstd::prelude::*;
use crate::note::{Note, NoteView};
use crate::codec::{canonical, note_of, render_note_rep, parse_note};
use crate::hexid::id_rep;
use crate::chars::{lower_of, lowercase, str_to_chars};
use vstd::seq_lib::lemma_multiset_commutative;

verus! {

/// The views of a sequence of notes.
pub open spec fn views_of(s: Seq<Note>) -> Seq<NoteView> {
    s.map_values(|n: Note| n@)
}

/// Newest first: creation timestamps never increase along the sequence.
pub open spec fn sorted_desc(s: Seq<NoteView>) -> bool {
    forall|i: int, j: int| 0 <= i <= j < s.len() ==> s[i].created_at >= s[j].created_at
}

/// The notes held by the record texts `files`, in order, records that parse
/// as no canonical rendering skipped.
pub open spec fn loaded_views(files: Seq<Seq<char>>) -> Seq<NoteView> {
    files.filter(|f: Seq<char>| canonical(f)).map_values(|f: Seq<char>| note_of(f))
}

proof fn lemma_filter_snoc<A>(s: Seq<A>, x: A, pred: spec_fn(A) -> bool)
    ensures
        (s.push(x)).filter(pred) == if pred(x) {
            s.filter(pred).push(x)
        } else {
            s.filter(pred)
        },
{
    reveal(Seq::filter);
    assert(s.push(x).drop_last() =~= s);
    assert(s.push(x).last() == x);
}

/// Parses each record text, keeping the notes of those that parse and
/// skipping the rest, in order.
pub fn parse_records(files: &Vec<String>) -> (r: Vec<Note>)
    ensures
        views_of(r@) == loaded_views(files.deep_view()),
{
    let ghost fdv = files.deep_view();
    let mut r: Vec<Note> = Vec::new();
    let mut i: usize = 0;
    proof {
        assert(fdv.take(0) =~= Seq::<Seq<char>>::empty());
        reveal(Seq::filter);
        assert(views_of(r@) =~= loaded_views(fdv.take(0)));
    }
    while i < files.len()
        invariant
            i <= files@.len(),
            fdv == files.deep_view(),
            fdv.len() == files@.len(),
            views_of(r@) == loaded_views(fdv.take(i as int)),
        decreases files@.len() - i,
    {
        let ghost fv = fdv[i as int];
        let ghost rold = r@;
        proof {
            assert(fdv[i as int] == files@[i as int]@);
        }
        match parse_note(files[i].as_str()) {
            Some(n) => {
                proof {
                    assert(canonical(fv)) by {
                        assert(render_note_rep(n@) == fv);
                    }
                    let nv0 = note_of(fv);
                    assert(render_note_rep(nv0) == fv);
                    assert(n@ == nv0);
                }
                r.push(n);
                proof {
                    assert(views_of(r@) =~= views_of(rold).push(note_of(fv)));
                }
            },
            None => {
                proof {
                    assert(!canonical(fv)) by {
                        if canonical(fv) {
                            let nv0 = note_of(fv);
                            assert(render_note_rep(nv0) == fv);
                            assert(false);
                        }
                    }
                }
            },
        }
        proof {
            assert(fdv.take(i + 1) =~= fdv.take(i as int).push(fv));
            lemma_filter_snoc(fdv.take(i as int), fv, |f: Seq<char>| canonical(f));
            let ft = fdv.take(i as int).filter(|f: Seq<char>| canonical(f));
            if canonical(fv) {
                assert(loaded_views(fdv.take(i + 1)) =~= ft.map_values(
                    |f: Seq<char>| note_of(f),
                ).push(note_of(fv)));
            } else {
                assert(loaded_views(fdv.take(i + 1)) =~= loaded_views(fdv.take(i as int)));
            }
            assert(views_of(r@) =~= loaded_views(fdv.take(i + 1)));
        }
        i = i + 1;
    }
    proof {
        assert(fdv.take(fdv.len() as int) =~= fdv);
    }
    r
}

/// Sorts notes by creation time, newest first. The result holds exactly the
/// given notes; the order among equal timestamps is left open.
pub fn sort_notes(notes: Vec<Note>) -> (r: Vec<Note>)
    ensures
        sorted_desc(views_of(r@)),
        views_of(r@).to_multiset() == views_of(notes@).to_multiset(),
{
    let ghost full = views_of(notes@);
    let mut rest = notes;
    let mut out: Vec<Note> = Vec::new();
    proof {
        broadcast use vstd::seq_lib::group_to_multiset_ensures;

        assert(views_of(out@) =~= Seq::<NoteView>::empty());
        assert(views_of(out@).to_multiset().add(views_of(rest@).to_multiset())
            =~= full.to_multiset());
    }
    while rest.len() > 0
        invariant
            sorted_desc(views_of(out@)),
            views_of(out@).to_multiset().add(views_of(rest@).to_multiset()) == full.to_multiset(),
        decreases rest@.len(),
    {
        let ghost vr = views_of(rest@);
        let ghost vo = views_of(out@);
        let n = rest.remove(0);
        let ghost x = n@;
        proof {
            broadcast use vstd::seq_lib::group_to_multiset_ensures;

            assert(views_of(rest@) =~= vr.remove(0));
            assert(vr[0] == x);
            assert(views_of(rest@).to_multiset() =~= vr.to_multiset().remove(x));
            assert(vr.contains(x));
            assert(vr.to_multiset().count(x) > 0);
        }
        let mut k: usize = 0;
        while k < out.len() && out[k].created_at >= n.created_at
            invariant
                k <= out@.len(),
                vo == views_of(out@),
                x == n@,
                forall|q: int| 0 <= q < k ==> vo[q].created_at >= x.created_at,
            decreases out@.len() - k,
        {
            proof {
                assert(vo[k as int] == out@[k as int]@);
            }
            k = k + 1;
        }
        proof {
            assert(k == vo.len() || vo[k as int].created_at < x.created_at);
        }
        out.insert(k, n);
        proof {
            broadcast use vstd::seq_lib::group_to_multiset_ensures;

            let t = vo.take(k as int);
            let d = vo.skip(k as int);
            assert(views_of(out@) =~= t + seq![x] + d);
            assert(sorted_desc(views_of(out@))) by {
                let vo2 = views_of(out@);
                assert forall|i: int, j: int| 0 <= i <= j < vo2.len() implies vo2[i].created_at
                    >= vo2[j].created_at by {
                    assert(forall|q: int| 0 <= q < vo2.len() ==> vo2[q] == (if q < k {
                        vo[q]
                    } else if q == k {
                        x
                    } else {
                        vo[q - 1]
                    }));
                    if j > k {
                        assert(vo[j - 1].created_at <= vo[k as int].created_at);
                    }
                }
            }
            assert((t + seq![x] + d) =~= (t + seq![x]) + d);
            lemma_multiset_commutative(t + seq![x], d);
            lemma_multiset_commutative(t, d);
            assert(t + seq![x] =~= t.push(x));
            assert(vo =~= t + d);
            assert(views_of(out@).to_multiset() =~= vo.to_multiset().insert(x));
            assert(views_of(out@).to_multiset().add(views_of(rest@).to_multiset()) =~= vo.to_multiset().add(
                vr.to_multiset(),
            ));
        }
    }
    proof {
        assert(views_of(rest@).len() == 0);
        assert(views_of(rest@) =~= Seq::<NoteView>::empty());
        broadcast use vstd::seq_lib::group_to_multiset_ensures;

        assert(views_of(out@).to_multiset() =~= full.to_multiset());
    }
    out
}

/// Whether the note carries exactly this tag.
pub open spec fn has_tag(nv: NoteView, tag: Seq<char>) -> bool {
    nv.tags.contains(tag)
}

/// Whether the note carries exactly the tag `tag`.
pub fn note_has_tag(n: &Note, tag: &String) -> (r: bool)
    ensures
        r == has_tag(n@, tag@),
{
    let mut i: usize = 0;
    while i < n.tags.len()
        invariant
            i <= n.tags@.len(),
            n@.tags.len() == n.tags@.len(),
            forall|q: int| 0 <= q < i ==> n@.tags[q] != tag@,
        decreases n.tags@.len() - i,
    {
        if tag.eq(&n.tags[i]) {
            proof {
                assert(n@.tags[i as int] == n.tags@[i as int]@);
            }
            return true;
        }
        proof {
            assert(n@.tags[i as int] == n.tags@[i as int]@);
        }
        i = i + 1;
    }
    proof {
        if has_tag(n@, tag@) {
            let q = choose|q: int| 0 <= q < n@.tags.len() && n@.tags[q] == tag@;
            assert(false);
        }
    }
    false
}

/// Keeps exactly the notes that carry the tag, in order.
pub fn filter_by_tag(notes: Vec<Note>, tag: &String) -> (r: Vec<Note>)
    ensures
        views_of(r@) == views_of(notes@).filter(|nv: NoteView| has_tag(nv, tag@)),
{
    let ghost orig = views_of(notes@);
    let ghost pred = |nv: NoteView| has_tag(nv, tag@);
    let mut rest = notes;
    let mut out: Vec<Note> = Vec::new();
    let ghost mut seen: int = 0;
    proof {
        reveal(Seq::filter);
        assert(orig.take(0) =~= Seq::<NoteView>::empty());
        assert(views_of(out@) =~= orig.take(0).filter(pred));
        assert(views_of(rest@) =~= orig.skip(0));
    }
    while rest.len() > 0
        invariant
            0 <= seen <= orig.len(),
            pred == (|nv: NoteView| has_tag(nv, tag@)),
            views_of(rest@) == orig.skip(seen),
            views_of(out@) == orig.take(seen).filter(pred),
        decreases rest@.len(),
    {
        let ghost vout = views_of(out@);
        let ghost vrold = views_of(rest@);
        let n = rest.remove(0);
        proof {
            assert(views_of(rest@) =~= vrold.remove(0));
            assert(views_of(rest@) =~= orig.skip(seen + 1));
            assert(vrold[0] == orig[seen]);
            assert(n@ == orig[seen]);
        }
        let keep = note_has_tag(&n, tag);
        if keep {
            out.push(n);
        }
        proof {
            assert(orig.take(seen + 1) =~= orig.take(seen).push(orig[seen]));
            lemma_filter_snoc(orig.take(seen), orig[seen], pred);
            if keep {
                assert(views_of(out@) =~= vout.push(orig[seen]));
            }
            assert(views_of(out@) =~= orig.take(seen + 1).filter(pred));
            seen = seen + 1;
        }
    }
    proof {
        assert(views_of(rest@).len() == 0);
        assert(seen == orig.len());
        assert(orig.take(seen) =~= orig);
    }
    out
}

/// Whether `ndl` stands somewhere inside `h` as a contiguous run.
pub open spec fn contains_sub(h: Seq<char>, ndl: Seq<char>) -> bool {
    exists|i: int| 0 <= i <= h.len() - ndl.len() && #[trigger] h.subrange(i, i + ndl.len()) == ndl
}

fn match_at(h: &Vec<char>, ndl: &Vec<char>, at: usize) -> (r: bool)
    requires
        at + ndl@.len() <= h@.len(),
    ensures
        r == (h@.subrange(at as int, at + ndl@.len()) == ndl@),
{
    let hlen = h.len();
    let mut j: usize = 0;
    while j < ndl.len()
        invariant
            j <= ndl@.len(),
            hlen == h@.len(),
            at + ndl@.len() <= h@.len(),
            forall|q: int| 0 <= q < j ==> h@[at + q] == ndl@[q],
        decreases ndl@.len() - j,
    {
        if h[at + j] != ndl[j] {
            proof {
                if h@.subrange(at as int, at + ndl@.len()) == ndl@ {
                    assert(h@.subrange(at as int, at + ndl@.len())[j as int] == h@[at + j]);
                    assert(false);
                }
            }
            return false;
        }
        j = j + 1;
    }
    proof {
        assert(h@.subrange(at as int, at + ndl@.len()) =~= ndl@);
    }
    true
}

/// Whether the needle occurs in the haystack.
pub fn contains_chars(h: &Vec<char>, ndl: &Vec<char>) -> (r: bool)
    ensures
        r == contains_sub(h@, ndl@),
{
    if ndl.len() > h.len() {
        proof {
            assert(!contains_sub(h@, ndl@));
        }
        return false;
    }
    if ndl.len() == 0 {
        proof {
            assert(exists|q: int|
                0 <= q <= h@.len() - ndl@.len() && #[trigger] h@.subrange(q, q + ndl@.len())
                    == ndl@) by {
                assert(h@.subrange(0int, 0int + ndl@.len()) =~= ndl@);
            }
            assert(contains_sub(h@, ndl@));
        }
        return true;
    }
    let mut i: usize = 0;
    let last = h.len() - ndl.len();
    while i <= last
        invariant
            i <= last + 1,
            1 <= ndl@.len(),
            last == h@.len() - ndl@.len(),
            last < h@.len(),
            h@.len() <= usize::MAX,
            forall|q: int| 0 <= q < i ==> #[trigger] h@.subrange(q, q + ndl@.len()) != ndl@,
        decreases last - i + 1,
    {
        if match_at(h, ndl, i) {
            proof {
                assert(0 <= i as int <= h@.len() - ndl@.len());
                assert(exists|q: int|
                    0 <= q <= h@.len() - ndl@.len() && #[trigger] h@.subrange(q, q + ndl@.len())
                        == ndl@) by {
                    assert(h@.subrange(i as int, i as int + ndl@.len()) == ndl@);
                }
                assert(contains_sub(h@, ndl@));
            }
            return true;
        }
        i = i + 1;
    }
    proof {
        if contains_sub(h@, ndl@) {
            let q = choose|q: int|
                0 <= q <= h@.len() - ndl@.len() && #[trigger] h@.subrange(q, q + ndl@.len())
                    == ndl@;
            assert(false);
        }
    }
    false
}

/// Whether the lowercased query occurs in the lowercase form of the title,
/// the content, or any tag.
pub open spec fn matches_query(nv: NoteView, lq: Seq<char>) -> bool {
    contains_sub(lower_of(nv.title), lq) || contains_sub(lower_of(nv.content), lq) || exists|
        i: int,
    |
        0 <= i < nv.tags.len() && contains_sub(lower_of(nv.tags[i]), lq)
}

/// Decides `matches_query` for one note against an already lowercased query.
pub fn note_matches(n: &Note, lq: &String) -> (r: bool)
    ensures
        r == matches_query(n@, lq@),
{
    let q = str_to_chars(lq.as_str());
    let tl = lowercase(n.title.as_str());
    let tlc = str_to_chars(tl.as_str());
    if contains_chars(&tlc, &q) {
        return true;
    }
    let cl = lowercase(n.content.as_str());
    let clc = str_to_chars(cl.as_str());
    if contains_chars(&clc, &q) {
        return true;
    }
    let mut i: usize = 0;
    while i < n.tags.len()
        invariant
            i <= n.tags@.len(),
            n@.tags.len() == n.tags@.len(),
            q@ == lq@,
            !contains_sub(lower_of(n@.title), lq@),
            !contains_sub(lower_of(n@.content), lq@),
            forall|p: int| 0 <= p < i ==> !contains_sub(lower_of(n@.tags[p]), lq@),
        decreases n.tags@.len() - i,
    {
        let gl = lowercase(n.tags[i].as_str());
        let glc = str_to_chars(gl.as_str());
        proof {
            assert(n@.tags[i as int] == n.tags@[i as int]@);
        }
        if contains_chars(&glc, &q) {
            return true;
        }
        i = i + 1;
    }
    proof {
        if matches_query(n@, lq@) {
            let p = choose|p: int| 0 <= p < n@.tags.len() && contains_sub(lower_of(n@.tags[p]), lq@);
            assert(false);
        }
    }
    false
}

/// Keeps exactly the notes matching the query, case-insensitively, in order.
pub fn search_notes(notes: Vec<Note>, query: &str) -> (r: Vec<Note>)
    ensures
        views_of(r@) == views_of(notes@).filter(
            |nv: NoteView| matches_query(nv, lower_of(query@)),
        ),
{
    let lq = lowercase(query);
    let ghost orig = views_of(notes@);
    let ghost pred = |nv: NoteView| matches_query(nv, lower_of(query@));
    let mut rest = notes;
    let mut out: Vec<Note> = Vec::new();
    let ghost mut seen: int = 0;
    proof {
        reveal(Seq::filter);
        assert(orig.take(0) =~= Seq::<NoteView>::empty());
        assert(views_of(out@) =~= orig.take(0).filter(pred));
        assert(views_of(rest@) =~= orig.skip(0));
    }
    while rest.len() > 0
        invariant
            0 <= seen <= orig.len(),
            lq@ == lower_of(query@),
            pred == (|nv: NoteView| matches_query(nv, lower_of(query@))),
            views_of(rest@) == orig.skip(seen),
            views_of(out@) == orig.take(seen).filter(pred),
        decreases rest@.len(),
    {
        let ghost vout = views_of(out@);
        let ghost vrold = views_of(rest@);
        let n = rest.remove(0);
        proof {
            assert(views_of(rest@) =~= vrold.remove(0));
            assert(views_of(rest@) =~= orig.skip(seen + 1));
            assert(vrold[0] == orig[seen]);
            assert(n@ == orig[seen]);
        }
        let keep = note_matches(&n, &lq);
        if keep {
            out.push(n);
        }
        proof {
            assert(orig.take(seen + 1) =~= orig.take(seen).push(orig[seen]));
            lemma_filter_snoc(orig.take(seen), orig[seen], pred);
            if keep {
                assert(views_of(out@) =~= vout.push(orig[seen]));
            }
            assert(views_of(out@) =~= orig.take(seen + 1).filter(pred));
            seen = seen + 1;
        }
    }
    proof {
        assert(views_of(rest@).len() == 0);
        assert(seen == orig.len());
        assert(orig.take(seen) =~= orig);
    }
    out
}

/// The outcome of resolving a delete request by an identifier prefix.
#[derive(Debug, Clone, Copy, PartialEq, Eq, Structural)]
pub enum DeleteError {
    NotFound,
    Ambiguous,
}

/// Whether the note's textual identifier starts with `prefix`.
pub open spec fn id_matches(nv: NoteView, prefix: Seq<char>) -> bool {
    prefix.len() <= 36 && id_rep(nv.id).take(prefix.len() as int) == prefix
}

/// How many notes the prefix matches.
pub open spec fn match_count(s: Seq<NoteView>, prefix: Seq<char>) -> int
    decreases s.len(),
{
    if s.len() == 0 {
        0
    } else {
        match_count(s.drop_last(), prefix) + if id_matches(s.last(), prefix) {
            1int
        } else {
            0int
        }
    }
}

fn starts_with(s: &Vec<char>, prefix: &Vec<char>) -> (r: bool)
    ensures
        r == (prefix@.len() <= s@.len() && s@.take(prefix@.len() as int) == prefix@),
{
    if prefix.len() > s.len() {
        return false;
    }
    let mut j: usize = 0;
    while j < prefix.len()
        invariant
            j <= prefix@.len(),
            prefix@.len() <= s@.len(),
            forall|q: int| 0 <= q < j ==> s@[q] == prefix@[q],
        decreases prefix@.len() - j,
    {
        if s[j] != prefix[j] {
            proof {
                if s@.take(prefix@.len() as int) == prefix@ {
                    assert(s@.take(prefix@.len() as int)[j as int] == s@[j as int]);
                    assert(false);
                }
            }
            return false;
        }
        j = j + 1;
    }
    proof {
        assert(s@.take(prefix@.len() as int) =~= prefix@);
    }
    true
}

/// Resolves a human-typed identifier prefix against the store: the index of
/// the unique note whose identifier starts with it, `NotFound` when none
/// does, `Ambiguous` when more than one does.
pub fn delete_note(notes: &Vec<Note>, id_prefix: &str) -> (r: Result<usize, DeleteError>)
    ensures
        r == Result::<usize, DeleteError>::Err(DeleteError::NotFound) <==> match_count(
            views_of(notes@),
            id_prefix@,
        ) == 0,
        r == Result::<usize, DeleteError>::Err(DeleteError::Ambiguous) <==> match_count(
            views_of(notes@),
            id_prefix@,
        ) >= 2,
        r matches Ok(i) ==> 0 <= i < notes@.len() && id_matches(notes@[i as int]@, id_prefix@)
            && match_count(views_of(notes@), id_prefix@) == 1 && (forall|j: int|
            0 <= j < notes@.len() && j != i ==> !id_matches(notes@[j]@, id_prefix@)),
{
    let ghost vs = views_of(notes@);
    let pc = str_to_chars(id_prefix);
    let mut count: usize = 0;
    let mut idx: usize = 0;
    let mut i: usize = 0;
    proof {
        assert(vs.take(0) =~= Seq::<NoteView>::empty());
    }
    while i < notes.len()
        invariant
            i <= notes@.len(),
            vs == views_of(notes@),
            vs.len() == notes@.len(),
            pc@ == id_prefix@,
            count == match_count(vs.take(i as int), id_prefix@),
            count <= i,
            count > 0 ==> idx < i && id_matches(vs[idx as int], id_prefix@),
            count == 1 ==> forall|j: int| 0 <= j < i && j != idx ==> !id_matches(vs[j], id_prefix@),
            count == 0 ==> forall|j: int| 0 <= j < i ==> !id_matches(vs[j], id_prefix@),
        decreases notes@.len() - i,
    {
        let rid = crate::hexid::render_id(notes[i].id);
        proof {
            crate::hexid::lemma_id_rep_len(notes@[i as int].id);
            assert(vs[i as int] == notes@[i as int]@);
        }
        let m = starts_with(&rid, &pc);
        proof {
            assert(m == id_matches(vs[i as int], id_prefix@));
            let t2 = vs.take(i + 1);
            assert(t2.drop_last() =~= vs.take(i as int));
            assert(t2.last() == vs[i as int]);
            assert(match_count(t2, id_prefix@) == match_count(vs.take(i as int), id_prefix@)
                + if id_matches(vs[i as int], id_prefix@) {
                1int
            } else {
                0int
            });
        }
        if m {
            if count == 0 {
                idx = i;
            }
            count = count + 1;
        }
        i = i + 1;
    }
    proof {
        assert(vs.take(i as int) =~= vs);
        if count == 1 {
            assert(vs[idx as int] == notes@[idx as int]@);
            assert(id_matches(notes@[idx as int]@, id_prefix@));
            assert forall|j: int| 0 <= j < notes@.len() && j != idx implies !id_matches(
                notes@[j]@,
                id_prefix@,
            ) by {
                assert(vs[j] == notes@[j]@);
            }
        }
    }
    if count == 0 {
        Err(DeleteError::NotFound)
    } else if count == 1 {
        Ok(idx)
    } else {
        Err(DeleteError::Ambiguous)
    }
}

/// Reads every record text, keeping the notes that parse, sorted by
/// creation time, newest first.
pub fn load_all_notes(files: &Vec<String>) -> (r: Vec<Note>)
    ensures
        sorted_desc(views_of(r@)),
        views_of(r@).to_multiset() == loaded_views(files.deep_view()).to_multiset(),
{
    let parsed = parse_records(files);
    sort_notes(parsed)
}

/// Lists the notes held by the record texts, optionally only those carrying
/// the given tag, sorted by creation time, newest first.
pub fn list_notes(files: &Vec<String>, tag: Option<&String>) -> (r: Vec<Note>)
    ensures
        sorted_desc(views_of(r@)),
        match tag {
            Some(t) => views_of(r@).to_multiset() == loaded_views(files.deep_view()).filter(
                |nv: NoteView| has_tag(nv, t@),
            ).to_multiset(),
            None => views_of(r@).to_multiset() == loaded_views(files.deep_view()).to_multiset(),
        },
{
    let parsed = parse_records(files);
    match tag {
        Some(t) => {
            let kept = filter_by_tag(parsed, t);
            sort_notes(kept)
        },
        None => sort_notes(parsed),
    }
}

} // verus!
