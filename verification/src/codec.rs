use vstd::prelude::*;
use crate::chars::append_chars;

verus! {

/// The characters that carry a backslash escape inside a quoted string.
pub open spec fn is_esc(c: char) -> bool {
    c == '"' || c == '\\'
}

pub open spec fn esc_char(c: char) -> Seq<char> {
    if is_esc(c) {
        seq!['\\', c]
    } else {
        seq![c]
    }
}

/// The escaped form of a string body: quotes and backslashes carry a
/// backslash, every other character stands as itself.
pub open spec fn escape(s: Seq<char>) -> Seq<char>
    decreases s.len(),
{
    if s.len() == 0 {
        Seq::empty()
    } else {
        esc_char(s[0]) + escape(s.drop_first())
    }
}

pub proof fn lemma_escape_snoc(a: Seq<char>, c: char)
    ensures
        escape(a.push(c)) == escape(a) + esc_char(c),
    decreases a.len(),
{
    if a.len() == 0 {
        assert(a.push(c) =~= seq![c]);
        assert(escape(seq![c]) == esc_char(c) + escape(seq![c].drop_first()));
        assert(seq![c].drop_first() =~= Seq::<char>::empty());
        assert(escape(a.push(c)) =~= escape(a) + esc_char(c));
    } else {
        assert(a.push(c).drop_first() =~= a.drop_first().push(c));
        lemma_escape_snoc(a.drop_first(), c);
        assert(escape(a.push(c)) == esc_char(a[0]) + (escape(a.drop_first()) + esc_char(c)));
        assert(esc_char(a[0]) + (escape(a.drop_first()) + esc_char(c)) =~= (esc_char(a[0])
            + escape(a.drop_first())) + esc_char(c));
    }
}

pub proof fn lemma_escape_append(a: Seq<char>, b: Seq<char>)
    ensures
        escape(a + b) == escape(a) + escape(b),
    decreases b.len(),
{
    if b.len() == 0 {
        assert(a + b =~= a);
        assert(escape(a) + escape(b) =~= escape(a));
    } else {
        let b0 = b.drop_last();
        lemma_escape_append(a, b0);
        lemma_escape_snoc(a + b0, b.last());
        lemma_escape_snoc(b0, b.last());
        assert((a + b0).push(b.last()) =~= a + b);
        assert(b0.push(b.last()) =~= b);
        assert((escape(a) + escape(b0)) + esc_char(b.last()) =~= escape(a) + (escape(b0)
            + esc_char(b.last())));
    }
}

pub proof fn lemma_escape_decompose(t: Seq<char>, k: int)
    requires
        0 <= k < t.len(),
    ensures
        escape(t) == escape(t.take(k)) + esc_char(t[k]) + escape(t.skip(k + 1)),
        escape(t.take(k + 1)) == escape(t.take(k)) + esc_char(t[k]),
        escape(t.take(k)).len() + esc_char(t[k]).len() <= escape(t).len(),
    decreases t.len(),
{
    assert(t.take(k + 1) =~= t.take(k).push(t[k]));
    lemma_escape_snoc(t.take(k), t[k]);
    lemma_escape_append(t.take(k + 1), t.skip(k + 1));
    assert(t.take(k + 1) + t.skip(k + 1) =~= t);
    assert(escape(t) == escape(t.take(k + 1)) + escape(t.skip(k + 1)));
    assert((escape(t.take(k)) + esc_char(t[k])) + escape(t.skip(k + 1)) =~= escape(t.take(k))
        + esc_char(t[k]) + escape(t.skip(k + 1)));
}

/// Escapes every character of `s`.
pub fn escape_chars(s: &Vec<char>) -> (r: Vec<char>)
    ensures
        r@ == escape(s@),
{
    let mut r: Vec<char> = Vec::new();
    let mut i: usize = 0;
    proof {
        assert(s@.take(0) =~= Seq::<char>::empty());
    }
    while i < s.len()
        invariant
            i <= s@.len(),
            r@ == escape(s@.take(i as int)),
        decreases s@.len() - i,
    {
        let c = s[i];
        proof {
            lemma_escape_snoc(s@.take(i as int), c);
            assert(s@.take(i + 1) =~= s@.take(i as int).push(c));
        }
        if c == '"' || c == '\\' {
            r.push('\\');
            r.push(c);
            proof {
                assert(r@ =~= escape(s@.take(i as int)) + esc_char(c));
            }
        } else {
            r.push(c);
            proof {
                assert(r@ =~= escape(s@.take(i as int)) + esc_char(c));
            }
        }
        i = i + 1;
    }
    proof {
        assert(s@.take(i as int) =~= s@);
    }
    r
}

/// Whether the escaped form of `t`, a closing quote, and then `rest` stand
/// at `from` in `s`.
pub open spec fn str_tail_at(s: Seq<char>, from: int, t: Seq<char>, rest: Seq<char>) -> bool {
    0 <= from <= s.len() && s.skip(from) == escape(t) + seq!['"'] + rest
}

/// Parses a quoted string body at `from`: characters up to the first
/// unescaped quote, undoing the backslash escapes.
pub fn parse_string(v: &Vec<char>, from: usize) -> (r: Option<(Vec<char>, usize)>)
    requires
        from <= v@.len(),
    ensures
        r matches Some(p) ==> from <= p.1 <= v@.len() && v@.subrange(from as int, p.1 as int)
            == escape(p.0@) + seq!['"'],
        forall|t: Seq<char>, rest: Seq<char>| #[trigger] str_tail_at(v@, from as int, t, rest)
            ==> (r matches Some(p) && p.0@ == t && p.1 == from + escape(t).len() + 1),
{
    let len = v.len();
    let mut p = from;
    let mut out: Vec<char> = Vec::new();
    proof {
        assert(v@.subrange(from as int, from as int) =~= escape(out@));
    }
    loop
        invariant
            from <= p <= len,
            len == v@.len(),
            v@.subrange(from as int, p as int) == escape(out@),
            forall|t: Seq<char>, rest: Seq<char>| #[trigger] str_tail_at(v@, from as int, t, rest)
                ==> out@.len() <= t.len() && out@ == t.take(out@.len() as int) && p == from
                + escape(t.take(out@.len() as int)).len(),
        decreases len - p,
    {
        let ghost k = out@.len() as int;
        if p >= len {
            proof {
                assert forall|t: Seq<char>, rest: Seq<char>| !str_tail_at(
                    v@,
                    from as int,
                    t,
                    rest,
                ) by {
                    if str_tail_at(v@, from as int, t, rest) {
                        assert(v@.skip(from as int).len() == len - from);
                        if k < t.len() {
                            lemma_escape_decompose(t, k);
                        } else {
                            assert(t.take(k) =~= t);
                        }
                        assert(false);
                    }
                }
            }
            return None;
        }
        let c = v[p];
        proof {
            assert forall|t: Seq<char>, rest: Seq<char>| str_tail_at(
                v@,
                from as int,
                t,
                rest,
            ) implies (if k < t.len() {
                c == esc_char(t[k])[0] && (is_esc(t[k]) ==> c == '\\')
            } else {
                c == '"'
            }) by {
                assert(v@.skip(from as int).len() == len - from);
                assert(v@.skip(from as int)[p - from] == v@[p as int]);
                if k < t.len() {
                    lemma_escape_decompose(t, k);
                    assert((escape(t) + seq!['"'] + rest)[p - from] == esc_char(t[k])[0]);
                } else {
                    assert(escape(t.take(k)) == escape(t)) by {
                        assert(t.take(k) =~= t);
                    }
                    assert((escape(t) + seq!['"'] + rest)[p - from] == '"');
                }
            }
        }
        if c == '"' {
            proof {
                assert(v@.subrange(from as int, p + 1) =~= v@.subrange(from as int, p as int).push(
                    '"',
                ));
                assert(v@.subrange(from as int, p + 1) =~= escape(out@) + seq!['"']);
                assert forall|t: Seq<char>, rest: Seq<char>| str_tail_at(
                    v@,
                    from as int,
                    t,
                    rest,
                ) implies out@ == t && p + 1 == from + escape(t).len() + 1 by {
                    if k < t.len() {
                        lemma_escape_decompose(t, k);
                        assert(c == esc_char(t[k])[0]);
                        assert(c == '\\' || c == t[k]);
                        assert(false);
                    }
                    assert(t.take(k) =~= t);
                }
            }
            return Some((out, p + 1));
        }
        if c == '\\' {
            proof {
                assert forall|t: Seq<char>, rest: Seq<char>| str_tail_at(
                    v@,
                    from as int,
                    t,
                    rest,
                ) implies k < t.len() && is_esc(t[k]) && from + escape(t).len() + 1 <= len && p + 2
                    <= from + escape(t).len() && v@[p + 1] == t[k] by {
                    assert(v@.skip(from as int).len() == len - from);
                    if k >= t.len() {
                        assert(c == '"');
                        assert(false);
                    }
                    lemma_escape_decompose(t, k);
                    assert(c == esc_char(t[k])[0]);
                    if !is_esc(t[k]) {
                        assert(c == t[k]);
                        assert(false);
                    }
                    assert(escape(t).len() >= escape(t.take(k)).len() + 2);
                    assert(v@.skip(from as int)[p + 1 - from] == v@[p + 1]);
                    assert((escape(t) + seq!['"'] + rest)[p + 1 - from] == esc_char(t[k])[1]);
                }
            }
            if p + 1 >= len {
                proof {
                    assert forall|t: Seq<char>, rest: Seq<char>| !str_tail_at(
                        v@,
                        from as int,
                        t,
                        rest,
                    ) by {
                        if str_tail_at(v@, from as int, t, rest) {
                            assert(p + 2 <= from + escape(t).len() <= len);
                            assert(false);
                        }
                    }
                }
                return None;
            }
            let c2 = v[p + 1];
            if c2 == '"' || c2 == '\\' {
                proof {
                    lemma_escape_snoc(out@, c2);
                    assert(v@.subrange(from as int, p + 2) =~= v@.subrange(
                        from as int,
                        p as int,
                    ).push('\\').push(c2));
                    assert(v@.subrange(from as int, p + 2) =~= escape(out@) + esc_char(c2));
                    assert(v@.subrange(from as int, p + 2) =~= escape(out@.push(c2)));
                    assert forall|t: Seq<char>, rest: Seq<char>| str_tail_at(
                        v@,
                        from as int,
                        t,
                        rest,
                    ) implies out@.push(c2).len() <= t.len() && out@.push(c2) =~= t.take(k + 1) && p
                        + 2 == from + escape(t.take(k + 1)).len() by {
                        assert(v@[p + 1] == t[k]);
                        assert(c2 == t[k]);
                        lemma_escape_decompose(t, k);
                        assert(t.take(k + 1) =~= t.take(k).push(t[k]));
                        assert(escape(t.take(k + 1)).len() == escape(t.take(k)).len() + 2);
                    }
                }
                out.push(c2);
                p = p + 2;
            } else {
                proof {
                    assert forall|t: Seq<char>, rest: Seq<char>| !str_tail_at(
                        v@,
                        from as int,
                        t,
                        rest,
                    ) by {
                        if str_tail_at(v@, from as int, t, rest) {
                            assert(v@[p + 1] == t[k] && is_esc(t[k]));
                            assert(false);
                        }
                    }
                }
                return None;
            }
        } else {
            proof {
                lemma_escape_snoc(out@, c);
                assert(v@.subrange(from as int, p + 1) =~= v@.subrange(from as int, p as int).push(
                    c,
                ));
                assert(esc_char(c) =~= seq![c]);
                assert(v@.subrange(from as int, p + 1) =~= escape(out@) + esc_char(c));
                assert(v@.subrange(from as int, p + 1) =~= escape(out@.push(c)));
                assert forall|t: Seq<char>, rest: Seq<char>| str_tail_at(
                    v@,
                    from as int,
                    t,
                    rest,
                ) implies out@.push(c).len() <= t.len() && out@.push(c) =~= t.take(k + 1) && p + 1
                    == from + escape(t.take(k + 1)).len() by {
                    if k >= t.len() {
                        assert(c == '"');
                        assert(false);
                    }
                    lemma_escape_decompose(t, k);
                    assert(c == esc_char(t[k])[0]);
                    if is_esc(t[k]) {
                        assert(c == '\\');
                        assert(false);
                    }
                    assert(c == t[k]);
                    assert(t.take(k + 1) =~= t.take(k).push(t[k]));
                    assert(escape(t.take(k + 1)).len() == escape(t.take(k)).len() + 1);
                }
            }
            out.push(c);
            p = p + 1;
        }
    }
}


/// A quoted, escaped string field.
pub open spec fn str_field(s: Seq<char>) -> Seq<char> {
    seq!['"'] + escape(s) + seq!['"']
}

/// The comma-separated bodies of the tag strings, without the brackets.
pub open spec fn tags_body(tags: Seq<Seq<char>>) -> Seq<char>
    decreases tags.len(),
{
    if tags.len() == 0 {
        Seq::empty()
    } else if tags.len() == 1 {
        str_field(tags[0])
    } else {
        str_field(tags[0]) + seq![','] + tags_body(tags.drop_first())
    }
}

/// The bracketed array of tag strings.
pub open spec fn tags_rep(tags: Seq<Seq<char>>) -> Seq<char> {
    seq!['['] + tags_body(tags) + seq![']']
}

pub proof fn lemma_tags_body_snoc(tags: Seq<Seq<char>>, t: Seq<char>)
    ensures
        tags_body(tags.push(t)) == if tags.len() == 0 {
            str_field(t)
        } else {
            tags_body(tags) + seq![','] + str_field(t)
        },
    decreases tags.len(),
{
    if tags.len() == 0 {
        assert(tags.push(t).len() == 1);
        assert(tags.push(t)[0] == t);
    } else if tags.len() == 1 {
        assert(tags.push(t).len() == 2);
        assert(tags.push(t)[0] == tags[0]);
        assert(tags.push(t).drop_first() =~= seq![t]);
        assert(tags_body(seq![t]) == str_field(t));
    } else {
        assert(tags.push(t).drop_first() =~= tags.drop_first().push(t));
        lemma_tags_body_snoc(tags.drop_first(), t);
        assert(tags.push(t)[0] == tags[0]);
        assert(str_field(tags[0]) + seq![','] + (tags_body(tags.drop_first()) + seq![',']
            + str_field(t)) =~= (str_field(tags[0]) + seq![','] + tags_body(tags.drop_first()))
            + seq![','] + str_field(t));
    }
}

/// Renders the tag array.
pub fn render_tags(tags: &Vec<String>) -> (r: Vec<char>)
    ensures
        r@ == tags_rep(tags.deep_view()),
{
    let ghost dv = tags.deep_view();
    let mut r: Vec<char> = Vec::new();
    r.push('[');
    proof {
        assert(dv.take(0) =~= Seq::<Seq<char>>::empty());
        assert(r@ =~= seq!['['] + tags_body(dv.take(0)));
    }
    let mut i: usize = 0;
    while i < tags.len()
        invariant
            i <= tags@.len(),
            dv == tags.deep_view(),
            dv.len() == tags@.len(),
            r@ == seq!['['] + tags_body(dv.take(i as int)),
        decreases tags@.len() - i,
    {
        let ghost rin = r@;
        if i > 0 {
            r.push(',');
        }
        r.push('"');
        let tc = crate::chars::str_to_chars(tags[i].as_str());
        let ec = escape_chars(&tc);
        append_chars(&mut r, &ec);
        r.push('"');
        proof {
            assert(dv[i as int] == tags@[i as int]@);
            assert(tc@ == dv[i as int]);
            lemma_tags_body_snoc(dv.take(i as int), dv[i as int]);
            assert(dv.take(i + 1) =~= dv.take(i as int).push(dv[i as int]));
            if i > 0 {
                assert(r@ =~= rin + seq![','] + seq!['"'] + escape(dv[i as int]) + seq!['"']);
                assert(r@ =~= seq!['['] + (tags_body(dv.take(i as int)) + seq![','] + str_field(
                    dv[i as int],
                )));
            } else {
                assert(dv.take(0) =~= Seq::<Seq<char>>::empty());
                assert(r@ =~= rin + seq!['"'] + escape(dv[i as int]) + seq!['"']);
                assert(r@ =~= seq!['['] + str_field(dv[i as int]));
            }
            assert(r@ =~= seq!['['] + tags_body(dv.take(i + 1)));
        }
        i = i + 1;
    }
    r.push(']');
    proof {
        assert(dv.take(dv.len() as int) =~= dv);
        assert(r@ =~= tags_rep(dv));
    }
    r
}

/// Whether the rendered tag array, then `rest`, stands at `from` in `s`.
pub open spec fn tags_at(s: Seq<char>, from: int, tags: Seq<Seq<char>>, rest: Seq<char>) -> bool {
    0 <= from <= s.len() && s.skip(from) == tags_rep(tags) + rest
}

/// The place where the body of element `k` begins inside the rendered
/// array, counted from the opening bracket.
pub open spec fn elem_pos(tags: Seq<Seq<char>>, k: int) -> int {
    1 + tags_body(tags.take(k)).len() + if k > 0 {
        1int
    } else {
        0int
    }
}

pub proof fn lemma_tags_body_split(tags: Seq<Seq<char>>, k: int)
    requires
        0 <= k < tags.len(),
    ensures
        tags_body(tags) == tags_body(tags.take(k)) + (if k > 0 {
            seq![',']
        } else {
            Seq::<char>::empty()
        }) + str_field(tags[k]) + (if k + 1 < tags.len() {
            seq![','] + tags_body(tags.skip(k + 1))
        } else {
            Seq::<char>::empty()
        }),
    decreases k,
{
    if k == 0 {
        assert(tags.take(0) =~= Seq::<Seq<char>>::empty());
        if tags.len() == 1 {
            assert(tags_body(tags) == str_field(tags[0]));
            assert(tags_body(tags.take(0)) + Seq::<char>::empty() + str_field(tags[0])
                + Seq::<char>::empty() =~= str_field(tags[0]));
        } else {
            assert(tags_body(tags) == str_field(tags[0]) + seq![','] + tags_body(
                tags.drop_first(),
            ));
            assert(tags.drop_first() =~= tags.skip(1));
            assert(tags_body(tags.take(0)) + Seq::<char>::empty() + str_field(tags[0]) + (seq![
                ','
            ] + tags_body(tags.skip(1))) =~= str_field(tags[0]) + seq![','] + tags_body(
                tags.skip(1),
            ));
        }
    } else {
        lemma_tags_body_split(tags.drop_first(), k - 1);
        assert(tags.len() >= 2);
        assert(tags_body(tags) == str_field(tags[0]) + seq![','] + tags_body(tags.drop_first()));
        let d = tags.drop_first();
        assert(d.take(k - 1) =~= tags.take(k).drop_first());
        assert(d[k - 1] == tags[k]);
        assert(d.skip(k) =~= tags.skip(k + 1));
        if k == 1 {
            assert(tags.take(1).len() == 1);
            assert(tags.take(1)[0] == tags[0]);
            assert(tags_body(tags.take(1)) == str_field(tags[0]));
            assert(d.take(0) =~= Seq::<Seq<char>>::empty());
            if k + 1 < tags.len() {
                assert(str_field(tags[0]) + seq![','] + (tags_body(d.take(0))
                    + Seq::<char>::empty() + str_field(d[0]) + (seq![','] + tags_body(d.skip(1))))
                    =~= tags_body(tags.take(1)) + seq![','] + str_field(tags[1]) + (seq![',']
                    + tags_body(tags.skip(2))));
            } else {
                assert(str_field(tags[0]) + seq![','] + (tags_body(d.take(0))
                    + Seq::<char>::empty() + str_field(d[0]) + Seq::<char>::empty())
                    =~= tags_body(tags.take(1)) + seq![','] + str_field(tags[1])
                    + Seq::<char>::empty());
            }
        } else {
            assert(tags.take(k).len() >= 2);
            assert(tags.take(k)[0] == tags[0]);
            assert(tags_body(tags.take(k)) == str_field(tags[0]) + seq![','] + tags_body(
                tags.take(k).drop_first(),
            ));
            if k + 1 < tags.len() {
                assert(str_field(tags[0]) + seq![','] + (tags_body(d.take(k - 1)) + seq![',']
                    + str_field(d[k - 1]) + (seq![','] + tags_body(d.skip(k)))) =~= (str_field(
                    tags[0],
                ) + seq![','] + tags_body(d.take(k - 1))) + seq![','] + str_field(tags[k]) + (seq![
                    ','
                ] + tags_body(tags.skip(k + 1))));
            } else {
                assert(str_field(tags[0]) + seq![','] + (tags_body(d.take(k - 1)) + seq![',']
                    + str_field(d[k - 1]) + Seq::<char>::empty()) =~= (str_field(tags[0]) + seq![
                    ','
                ] + tags_body(d.take(k - 1))) + seq![','] + str_field(tags[k])
                    + Seq::<char>::empty());
            }
        }
    }
}


pub proof fn lemma_skip_parts(s: Seq<char>, a: int, b: int, pre: Seq<char>, q: Seq<char>)
    requires
        0 <= a <= s.len(),
        s.skip(a) == pre + q,
        b == a + pre.len(),
    ensures
        b <= s.len(),
        s.skip(b) == q,
        s.subrange(a, b) == pre,
{
    assert(s.skip(a).len() == s.len() - a);
    assert(s.skip(b) =~= q) by {
        assert forall|i: int| 0 <= i < s.len() - b implies s.skip(b)[i] == q[i] by {
            assert(s.skip(b)[i] == s[b + i]);
            assert(s.skip(a)[b - a + i] == s[b + i]);
            assert((pre + q)[b - a + i] == q[i]);
        }
    }
    assert(s.subrange(a, b) =~= pre) by {
        assert forall|i: int| 0 <= i < b - a implies s.subrange(a, b)[i] == pre[i] by {
            assert(s.subrange(a, b)[i] == s[a + i]);
            assert(s.skip(a)[i] == s[a + i]);
            assert((pre + q)[i] == pre[i]);
        }
    }
}

/// Parses a bracketed array of quoted strings at `from`.
#[verifier::rlimit(100)]
pub fn parse_tags_arr(v: &Vec<char>, from: usize) -> (r: Option<(Vec<String>, usize)>)
    requires
        from <= v@.len(),
    ensures
        r matches Some(p) ==> from <= p.1 <= v@.len() && v@.subrange(from as int, p.1 as int)
            == tags_rep(p.0.deep_view()),
        forall|tg: Seq<Seq<char>>, rest: Seq<char>| #[trigger] tags_at(v@, from as int, tg, rest)
            ==> (r matches Some(p) && p.0.deep_view() == tg && p.1 == from + tags_rep(tg).len()),
{
    let len = v.len();
    if from >= len || v[from] != '[' {
        proof {
            assert forall|tg: Seq<Seq<char>>, rest: Seq<char>| !tags_at(
                v@,
                from as int,
                tg,
                rest,
            ) by {
                if tags_at(v@, from as int, tg, rest) {
                    assert(v@.skip(from as int).len() == len - from);
                    assert(v@.skip(from as int)[0] == v@[from as int]);
                    assert((tags_rep(tg) + rest)[0] == '[');
                    assert(false);
                }
            }
        }
        return None;
    }
    let p0 = from + 1;
    let mut out: Vec<String> = Vec::new();
    if p0 < len && v[p0] == ']' {
        proof {
            assert(out.deep_view() =~= Seq::<Seq<char>>::empty());
            assert(tags_body(out.deep_view()) == Seq::<char>::empty());
            assert(v@.subrange(from as int, p0 + 1) =~= tags_rep(out.deep_view()));
            assert forall|tg: Seq<Seq<char>>, rest: Seq<char>| tags_at(
                v@,
                from as int,
                tg,
                rest,
            ) implies tg =~= out.deep_view() && p0 + 1 == from + tags_rep(tg).len() by {
                if tg.len() > 0 {
                    lemma_tags_body_split(tg, 0);
                    assert(v@.skip(from as int)[1] == v@[p0 as int]);
                    assert(tg.take(0) =~= Seq::<Seq<char>>::empty());
                    assert(tags_rep(tg) =~= (seq!['[']) + (str_field(tg[0]) + ((if 1 < tg.len() {
                        seq![','] + tags_body(tg.skip(1))
                    } else {
                        Seq::<char>::empty()
                    }) + seq![']'])));
                    assert((tags_rep(tg) + rest)[1] == str_field(tg[0])[0]);
                    assert(str_field(tg[0])[0] == '"');
                    assert(false);
                }
                assert(tags_body(tg) == Seq::<char>::empty());
            }
        }
        return Some((out, p0 + 1));
    }
    let mut p = p0;
    proof {
        assert(out.deep_view() =~= Seq::<Seq<char>>::empty());
        assert forall|tg: Seq<Seq<char>>, rest: Seq<char>| #[trigger] tags_at(
            v@,
            from as int,
            tg,
            rest,
        ) implies 0 < tg.len() && out.deep_view() == tg.take(0) && p == from + elem_pos(tg, 0) by {
            assert(v@.skip(from as int).len() == len - from);
            if tg.len() == 0 {
                assert(tags_body(tg) == Seq::<char>::empty());
                assert(tags_rep(tg) =~= seq!['[', ']']);
                assert(v@.skip(from as int)[1] == v@[p0 as int]);
                assert((tags_rep(tg) + rest)[1] == ']');
                assert(p0 < len);
                assert(false);
            }
            assert(tg.take(0) =~= Seq::<Seq<char>>::empty());
            assert(elem_pos(tg, 0) == 1);
        }
    }
    loop
        invariant
            from < p <= len,
            len == v@.len(),
            v@[from as int] == '[',
            out.deep_view().len() == out@.len(),
            out@.len() == 0 ==> p == from + 1,
            out@.len() > 0 ==> v@.subrange(from as int, p as int) == seq!['['] + tags_body(
                out.deep_view(),
            ) + seq![','],
            forall|tg: Seq<Seq<char>>, rest: Seq<char>| #[trigger] tags_at(v@, from as int, tg, rest)
                ==> out.deep_view().len() < tg.len() && out.deep_view() == tg.take(
                out.deep_view().len() as int,
            ) && p == from + elem_pos(tg, out.deep_view().len() as int),
        decreases len - p,
    {
        let ghost k = out.deep_view().len() as int;
        let ghost dv = out.deep_view();
        proof {
            assert forall|tg: Seq<Seq<char>>, rest: Seq<char>| #[trigger] tags_at(
                v@,
                from as int,
                tg,
                rest,
            ) implies p < len && v@[p as int] == '"' && str_tail_at(
                v@,
                p + 1,
                tg[k],
                (if k + 1 < tg.len() {
                    seq![','] + tags_body(tg.skip(k + 1))
                } else {
                    Seq::<char>::empty()
                }) + seq![']'] + rest,
            ) by {
                lemma_tags_body_split(tg, k);
                let sep: Seq<char> = if k > 0 {
                    seq![',']
                } else {
                    Seq::<char>::empty()
                };
                let tail: Seq<char> = if k + 1 < tg.len() {
                    seq![','] + tags_body(tg.skip(k + 1))
                } else {
                    Seq::<char>::empty()
                };
                let pre = seq!['['] + tags_body(tg.take(k)) + sep;
                let q = str_field(tg[k]) + (tail + seq![']'] + rest);
                assert(v@.skip(from as int) =~= pre + q);
                assert(pre.len() == elem_pos(tg, k));
                lemma_skip_parts(v@, from as int, p as int, pre, q);
                assert(v@.skip(p as int).len() == len - p);
                assert(q.len() >= 2);
                assert(p < len);
                assert(v@.skip(p as int)[0] == v@[p as int]);
                assert(q[0] == str_field(tg[k])[0]);
                assert(str_field(tg[k])[0] == '"');
                assert(q =~= seq!['"'] + (escape(tg[k]) + seq!['"'] + (tail + seq![']'] + rest)));
                lemma_skip_parts(
                    v@,
                    p as int,
                    p + 1,
                    seq!['"'],
                    escape(tg[k]) + seq!['"'] + (tail + seq![']'] + rest),
                );
            }
        }
        if p >= len || v[p] != '"' {
            proof {
                assert forall|tg: Seq<Seq<char>>, rest: Seq<char>| !tags_at(
                    v@,
                    from as int,
                    tg,
                    rest,
                ) by {
                    if tags_at(v@, from as int, tg, rest) {
                        assert(p < len && v@[p as int] == '"');
                        assert(false);
                    }
                }
            }
            return None;
        }
        let sres = parse_string(v, p + 1);
        match sres {
            None => {
                proof {
                    assert forall|tg: Seq<Seq<char>>, rest: Seq<char>| !tags_at(
                        v@,
                        from as int,
                        tg,
                        rest,
                    ) by {
                        if tags_at(v@, from as int, tg, rest) {
                            assert(false);
                        }
                    }
                }
                return None;
            },
            Some((tc, p2)) => {
                let ts = crate::chars::chars_to_string(&tc);
                out.push(ts);
                proof {
                    assert(out.deep_view() =~= dv.push(tc@));
                }
                let ghost dv2 = out.deep_view();
                proof {
                    assert forall|tg: Seq<Seq<char>>, rest: Seq<char>| #[trigger] tags_at(
                        v@,
                        from as int,
                        tg,
                        rest,
                    ) implies tc@ == tg[k] && p2 == p + 1 + escape(tg[k]).len() + 1 && dv2
                        =~= tg.take(k + 1) && p2 < len && v@[p2 as int] == (if k + 1 < tg.len() {
                        ','
                    } else {
                        ']'
                    }) by {
                        let tail: Seq<char> = if k + 1 < tg.len() {
                            seq![','] + tags_body(tg.skip(k + 1))
                        } else {
                            Seq::<char>::empty()
                        };
                        let x = tail + seq![']'] + rest;
                        assert(str_tail_at(v@, p + 1, tg[k], x));
                        assert(tc@ == tg[k]);
                        assert(tg.take(k + 1) =~= tg.take(k).push(tg[k]));
                        assert(v@.skip(p + 1) == escape(tg[k]) + seq!['"'] + x);
                        assert(escape(tg[k]) + seq!['"'] + x =~= (escape(tg[k]) + seq!['"']) + x);
                        lemma_skip_parts(v@, p + 1, p2 as int, escape(tg[k]) + seq!['"'], x);
                        assert(v@.skip(p2 as int).len() == len - p2);
                        assert(x.len() >= 1);
                        assert(p2 < len);
                        assert(v@.skip(p2 as int)[0] == v@[p2 as int]);
                        if k + 1 < tg.len() {
                            assert(x[0] == ',');
                        } else {
                            assert(x[0] == ']');
                        }
                    }
                }
                let ghost stitched = seq!['['] + tags_body(dv2);
                proof {
                    lemma_tags_body_snoc(dv, tc@);
                    assert(v@.subrange(p as int, p2 as int) =~= seq!['"'] + v@.subrange(
                        p + 1,
                        p2 as int,
                    ));
                    assert(v@.subrange(p + 1, p2 as int) == escape(tc@) + seq!['"']);
                    assert(v@.subrange(from as int, p2 as int) =~= v@.subrange(from as int, p as int)
                        + v@.subrange(p as int, p2 as int));
                    if k == 0 {
                        assert(dv.take(0) =~= Seq::<Seq<char>>::empty());
                        assert(v@.subrange(from as int, p as int) =~= seq!['[']);
                        assert(v@.subrange(from as int, p2 as int) =~= seq!['['] + (seq!['"']
                            + (escape(tc@) + seq!['"'])));
                        assert(tags_body(dv2) == str_field(tc@));
                        assert(v@.subrange(from as int, p2 as int) =~= stitched);
                    } else {
                        assert(v@.subrange(from as int, p2 as int) =~= (seq!['['] + tags_body(dv)
                            + seq![',']) + (seq!['"'] + (escape(tc@) + seq!['"'])));
                        assert(tags_body(dv2) == tags_body(dv) + seq![','] + str_field(tc@));
                        assert(v@.subrange(from as int, p2 as int) =~= stitched);
                    }
                }
                if p2 < len && v[p2] == ',' {
                    proof {
                        assert(v@.subrange(from as int, p2 + 1) =~= v@.subrange(
                            from as int,
                            p2 as int,
                        ).push(','));
                        assert(v@.subrange(from as int, p2 + 1) =~= seq!['['] + tags_body(dv2)
                            + seq![',']);
                        assert forall|tg: Seq<Seq<char>>, rest: Seq<char>| #[trigger] tags_at(
                            v@,
                            from as int,
                            tg,
                            rest,
                        ) implies dv2.len() < tg.len() && dv2 == tg.take(dv2.len() as int) && p2 + 1
                            == from + elem_pos(tg, dv2.len() as int) by {
                            if k + 1 >= tg.len() {
                                assert(v@[p2 as int] == ']');
                                assert(false);
                            }
                            lemma_tags_body_snoc(tg.take(k), tg[k]);
                            assert(tg.take(k + 1) =~= tg.take(k).push(tg[k]));
                            assert(elem_pos(tg, k + 1) == 1 + tags_body(tg.take(k + 1)).len() + 1);
                        }
                    }
                    p = p2 + 1;
                } else if p2 < len && v[p2] == ']' {
                    proof {
                        assert(v@.subrange(from as int, p2 + 1) =~= v@.subrange(
                            from as int,
                            p2 as int,
                        ).push(']'));
                        assert(v@.subrange(from as int, p2 + 1) =~= tags_rep(dv2));
                        assert forall|tg: Seq<Seq<char>>, rest: Seq<char>| #[trigger] tags_at(
                            v@,
                            from as int,
                            tg,
                            rest,
                        ) implies dv2 == tg && p2 + 1 == from + tags_rep(tg).len() by {
                            if k + 1 < tg.len() {
                                assert(v@[p2 as int] == ',');
                                assert(false);
                            }
                            assert(tg.take(k + 1) =~= tg);
                            lemma_tags_body_split(tg, k);
                            assert(tags_rep(tg).len() == 1 + tags_body(tg).len() + 1);
                        }
                    }
                    return Some((out, p2 + 1));
                } else {
                    proof {
                        assert forall|tg: Seq<Seq<char>>, rest: Seq<char>| !tags_at(
                            v@,
                            from as int,
                            tg,
                            rest,
                        ) by {
                            if tags_at(v@, from as int, tg, rest) {
                                assert(p2 < len);
                                assert(v@[p2 as int] == ',' || v@[p2 as int] == ']');
                                assert(false);
                            }
                        }
                    }
                    return None;
                }
            },
        }
    }
}


pub open spec fn lit_a() -> Seq<char> {
    seq!['{', '"', 'i', 'd', '"', ':', '"']
}

pub open spec fn lit_b() -> Seq<char> {
    seq!['"', ',', '"', 't', 'i', 't', 'l', 'e', '"', ':']
}

pub open spec fn lit_c() -> Seq<char> {
    seq![',', '"', 'c', 'o', 'n', 't', 'e', 'n', 't', '"', ':']
}

pub open spec fn lit_d() -> Seq<char> {
    seq![',', '"', 't', 'a', 'g', 's', '"', ':']
}

pub open spec fn lit_e() -> Seq<char> {
    seq![',', '"', 'c', 'r', 'e', 'a', 't', 'e', 'd', '_', 'a', 't', '"', ':']
}

pub open spec fn lit_f() -> Seq<char> {
    seq![',', '"', 'u', 'p', 'd', 'a', 't', 'e', 'd', '_', 'a', 't', '"', ':']
}

pub open spec fn rep_from_updated(nv: crate::note::NoteView) -> Seq<char> {
    lit_f() + crate::digits::int_rep(nv.updated_at as int) + seq!['}']
}

pub open spec fn rep_from_created(nv: crate::note::NoteView) -> Seq<char> {
    lit_e() + crate::digits::int_rep(nv.created_at as int) + rep_from_updated(nv)
}

pub open spec fn rep_from_tags(nv: crate::note::NoteView) -> Seq<char> {
    lit_d() + tags_rep(nv.tags) + rep_from_created(nv)
}

pub open spec fn rep_from_content(nv: crate::note::NoteView) -> Seq<char> {
    lit_c() + str_field(nv.content) + rep_from_tags(nv)
}

pub open spec fn rep_from_title(nv: crate::note::NoteView) -> Seq<char> {
    str_field(nv.title) + rep_from_content(nv)
}

/// The canonical rendering of a note record: a single-line record in the
/// style of a JSON object, fields in a fixed order.
pub open spec fn render_note_rep(nv: crate::note::NoteView) -> Seq<char> {
    lit_a() + crate::hexid::id_rep(nv.id) + lit_b() + rep_from_title(nv)
}

fn lit_a_vec() -> (r: Vec<char>)
    ensures
        r@ == lit_a(),
{
    let r: Vec<char> = vec!['{', '"', 'i', 'd', '"', ':', '"'];
    proof {
        assert(r@ =~= lit_a());
    }
    r
}

fn lit_b_vec() -> (r: Vec<char>)
    ensures
        r@ == lit_b(),
{
    let r: Vec<char> = vec!['"', ',', '"', 't', 'i', 't', 'l', 'e', '"', ':'];
    proof {
        assert(r@ =~= lit_b());
    }
    r
}

fn lit_c_vec() -> (r: Vec<char>)
    ensures
        r@ == lit_c(),
{
    let r: Vec<char> = vec![',', '"', 'c', 'o', 'n', 't', 'e', 'n', 't', '"', ':'];
    proof {
        assert(r@ =~= lit_c());
    }
    r
}

fn lit_d_vec() -> (r: Vec<char>)
    ensures
        r@ == lit_d(),
{
    let r: Vec<char> = vec![',', '"', 't', 'a', 'g', 's', '"', ':'];
    proof {
        assert(r@ =~= lit_d());
    }
    r
}

fn lit_e_vec() -> (r: Vec<char>)
    ensures
        r@ == lit_e(),
{
    let r: Vec<char> = vec![',', '"', 'c', 'r', 'e', 'a', 't', 'e', 'd', '_', 'a', 't', '"', ':'];
    proof {
        assert(r@ =~= lit_e());
    }
    r
}

fn lit_f_vec() -> (r: Vec<char>)
    ensures
        r@ == lit_f(),
{
    let r: Vec<char> = vec![',', '"', 'u', 'p', 'd', 'a', 't', 'e', 'd', '_', 'a', 't', '"', ':'];
    proof {
        assert(r@ =~= lit_f());
    }
    r
}

/// Renders a note in its canonical record form.
pub fn render_note(n: &crate::note::Note) -> (r: String)
    ensures
        r@ == render_note_rep(n@),
{
    let mut out: Vec<char> = Vec::new();
    let la = lit_a_vec();
    append_chars(&mut out, &la);
    let idc = crate::hexid::render_id(n.id);
    append_chars(&mut out, &idc);
    let lb = lit_b_vec();
    append_chars(&mut out, &lb);
    let ghost g0 = out@;
    out.push('"');
    let tc = crate::chars::str_to_chars(n.title.as_str());
    let te = escape_chars(&tc);
    append_chars(&mut out, &te);
    out.push('"');
    proof {
        assert(out@ =~= g0 + str_field(n@.title));
    }
    let lc = lit_c_vec();
    append_chars(&mut out, &lc);
    let ghost g1 = out@;
    out.push('"');
    let cc = crate::chars::str_to_chars(n.content.as_str());
    let ce = escape_chars(&cc);
    append_chars(&mut out, &ce);
    out.push('"');
    proof {
        assert(out@ =~= g1 + str_field(n@.content));
    }
    let ld = lit_d_vec();
    append_chars(&mut out, &ld);
    let tgs = render_tags(&n.tags);
    append_chars(&mut out, &tgs);
    let le = lit_e_vec();
    append_chars(&mut out, &le);
    let ca = crate::digits::render_i64(n.created_at);
    append_chars(&mut out, &ca);
    let lf = lit_f_vec();
    append_chars(&mut out, &lf);
    let ua = crate::digits::render_i64(n.updated_at);
    append_chars(&mut out, &ua);
    out.push('}');
    proof {
        assert(out@ =~= render_note_rep(n@));
    }
    crate::chars::chars_to_string(&out)
}

/// Matches the fixed text `pat` at `from`.
fn expect(v: &Vec<char>, from: usize, pat: &Vec<char>) -> (r: Option<usize>)
    requires
        from <= v@.len(),
    ensures
        r matches Some(j) ==> j == from + pat@.len() && j <= v@.len() && v@.subrange(
            from as int,
            j as int,
        ) == pat@,
        r is None ==> !(from + pat@.len() <= v@.len() && v@.subrange(
            from as int,
            from + pat@.len(),
        ) == pat@),
{
    let len = v.len();
    if pat.len() > len - from {
        return None;
    }
    let mut i: usize = 0;
    while i < pat.len()
        invariant
            i <= pat@.len(),
            from + pat@.len() <= len,
            len == v@.len(),
            forall|j: int| 0 <= j < i ==> v@[from + j] == pat@[j],
        decreases pat@.len() - i,
    {
        if v[from + i] != pat[i] {
            proof {
                if v@.subrange(from as int, from + pat@.len()) == pat@ {
                    assert(v@.subrange(from as int, from + pat@.len())[i as int] == v@[from + i]);
                    assert(false);
                }
            }
            return None;
        }
        i = i + 1;
    }
    proof {
        assert(v@.subrange(from as int, from + pat@.len()) =~= pat@);
    }
    Some(from + pat.len())
}

/// Whether `s` is the canonical rendering of some note.
pub open spec fn canonical(s: Seq<char>) -> bool {
    exists|nv: crate::note::NoteView| render_note_rep(nv) == s
}

/// The note whose canonical rendering `s` is.
pub open spec fn note_of(s: Seq<char>) -> crate::note::NoteView {
    choose|nv: crate::note::NoteView| render_note_rep(nv) == s
}

/// The rendering of the identifier and the two string fields, as consumed
/// by the first half of the record parser.
pub open spec fn prefix_rep(id: u128, title: Seq<char>, content: Seq<char>) -> Seq<char> {
    lit_a() + crate::hexid::id_rep(id) + lit_b() + str_field(title) + lit_c() + str_field(content)
}

#[verifier::rlimit(100)]
fn parse_note_prefix(v: &Vec<char>) -> (r: Option<(u128, Vec<char>, Vec<char>, usize)>)
    ensures
        r matches Some(q) ==> q.3 <= v@.len() && v@.subrange(0, q.3 as int) == prefix_rep(
            q.0,
            q.1@,
            q.2@,
        ),
        forall|nv: crate::note::NoteView| #[trigger] render_note_rep(nv) == v@ ==> (r matches Some(
            q,
        ) && q.0 == nv.id && q.1@ == nv.title && q.2@ == nv.content && v@.skip(q.3 as int)
            == rep_from_tags(nv)),
{
    let len = v.len();
    let la = lit_a_vec();
    let p1 = match expect(v, 0, &la) {
        Some(j) => j,
        None => {
            proof {
                assert forall|nv: crate::note::NoteView| render_note_rep(nv) != v@ by {
                    if render_note_rep(nv) == v@ {
                        assert(v@.skip(0) =~= v@);
                        assert(v@ =~= lit_a() + (crate::hexid::id_rep(nv.id) + lit_b()
                            + rep_from_title(nv)));
                        lemma_skip_parts(
                            v@,
                            0,
                            7,
                            lit_a(),
                            crate::hexid::id_rep(nv.id) + lit_b() + rep_from_title(nv),
                        );
                        assert(false);
                    }
                }
            }
            return None;
        },
    };
    proof {
        assert forall|nv: crate::note::NoteView| #[trigger] render_note_rep(nv) == v@ implies p1
            == 7 && v@.skip(7) == crate::hexid::id_rep(nv.id) + (lit_b() + rep_from_title(nv)) by {
            assert(v@.skip(0) =~= v@);
            assert(v@ =~= lit_a() + (crate::hexid::id_rep(nv.id) + (lit_b() + rep_from_title(
                nv,
            ))));
            lemma_skip_parts(
                v@,
                0,
                7,
                lit_a(),
                crate::hexid::id_rep(nv.id) + (lit_b() + rep_from_title(nv)),
            );
        }
    }
    let (idv, p2) = match crate::hexid::parse_id(v, p1) {
        Some(pr) => pr,
        None => {
            proof {
                assert forall|nv: crate::note::NoteView| render_note_rep(nv) != v@ by {
                    if render_note_rep(nv) == v@ {
                        crate::hexid::lemma_id_rep_len(nv.id);
                        lemma_skip_parts(
                            v@,
                            7,
                            43,
                            crate::hexid::id_rep(nv.id),
                            lit_b() + rep_from_title(nv),
                        );
                        assert(crate::hexid::id_at(v@, 7, nv.id));
                        assert(false);
                    }
                }
            }
            return None;
        },
    };
    proof {
        assert forall|nv: crate::note::NoteView| #[trigger] render_note_rep(nv) == v@ implies idv
            == nv.id && p2 == 43 && v@.skip(43) == lit_b() + rep_from_title(nv) by {
            crate::hexid::lemma_id_rep_len(nv.id);
            lemma_skip_parts(
                v@,
                7,
                43,
                crate::hexid::id_rep(nv.id),
                lit_b() + rep_from_title(nv),
            );
            assert(crate::hexid::id_at(v@, 7, nv.id));
        }
    }
    let lb = lit_b_vec();
    let p3 = match expect(v, p2, &lb) {
        Some(j) => j,
        None => {
            proof {
                assert forall|nv: crate::note::NoteView| render_note_rep(nv) != v@ by {
                    if render_note_rep(nv) == v@ {
                        lemma_skip_parts(v@, 43, 53, lit_b(), rep_from_title(nv));
                        assert(false);
                    }
                }
            }
            return None;
        },
    };
    proof {
        assert forall|nv: crate::note::NoteView| #[trigger] render_note_rep(nv) == v@ implies p3
            == 53 && v@.skip(53) == rep_from_title(nv) && str_tail_at(
            v@,
            54,
            nv.title,
            rep_from_content(nv),
        ) by {
            lemma_skip_parts(v@, 43, 53, lit_b(), rep_from_title(nv));
            assert(rep_from_title(nv) =~= seq!['"'] + (escape(nv.title) + seq!['"']
                + rep_from_content(nv)));
            lemma_skip_parts(
                v@,
                53,
                54,
                seq!['"'],
                escape(nv.title) + seq!['"'] + rep_from_content(nv),
            );
        }
    }
    if p3 >= len || v[p3] != '"' {
        proof {
            assert forall|nv: crate::note::NoteView| render_note_rep(nv) != v@ by {
                if render_note_rep(nv) == v@ {
                    assert(v@.skip(53).len() == len - 53);
                    assert(v@.skip(53)[0] == v@[53]);
                    assert(rep_from_title(nv)[0] == '"');
                    assert(false);
                }
            }
        }
        return None;
    }
    let (tl, p5) = match parse_string(v, p3 + 1) {
        Some(pr) => pr,
        None => {
            proof {
                assert forall|nv: crate::note::NoteView| render_note_rep(nv) != v@ by {
                    if render_note_rep(nv) == v@ {
                        assert(str_tail_at(v@, 54, nv.title, rep_from_content(nv)));
                        assert(false);
                    }
                }
            }
            return None;
        },
    };
    proof {
        assert forall|nv: crate::note::NoteView| #[trigger] render_note_rep(nv) == v@ implies tl@
            == nv.title && p5 == 54 + escape(nv.title).len() + 1 && v@.skip(p5 as int)
            == rep_from_content(nv) by {
            assert(str_tail_at(v@, 54, nv.title, rep_from_content(nv)));
            assert(v@.skip(54) == escape(nv.title) + seq!['"'] + rep_from_content(nv));
            assert(escape(nv.title) + seq!['"'] + rep_from_content(nv) =~= (escape(nv.title)
                + seq!['"']) + rep_from_content(nv));
            lemma_skip_parts(v@, 54, p5 as int, escape(nv.title) + seq!['"'], rep_from_content(nv));
        }
    }
    let lc = lit_c_vec();
    let p6 = match expect(v, p5, &lc) {
        Some(j) => j,
        None => {
            proof {
                assert forall|nv: crate::note::NoteView| render_note_rep(nv) != v@ by {
                    if render_note_rep(nv) == v@ {
                        assert(rep_from_content(nv) =~= lit_c() + (str_field(nv.content)
                            + rep_from_tags(nv)));
                        lemma_skip_parts(
                            v@,
                            p5 as int,
                            p5 + 11,
                            lit_c(),
                            str_field(nv.content) + rep_from_tags(nv),
                        );
                        assert(false);
                    }
                }
            }
            return None;
        },
    };
    proof {
        assert forall|nv: crate::note::NoteView| #[trigger] render_note_rep(nv) == v@ implies p6
            == p5 + 11 && str_tail_at(v@, p6 + 1, nv.content, rep_from_tags(nv)) && v@.skip(
            p6 as int,
        ) == str_field(nv.content) + rep_from_tags(nv) by {
            assert(rep_from_content(nv) =~= lit_c() + (str_field(nv.content) + rep_from_tags(nv)));
            lemma_skip_parts(
                v@,
                p5 as int,
                p5 + 11,
                lit_c(),
                str_field(nv.content) + rep_from_tags(nv),
            );
            assert(str_field(nv.content) + rep_from_tags(nv) =~= seq!['"'] + (escape(nv.content)
                + seq!['"'] + rep_from_tags(nv)));
            lemma_skip_parts(
                v@,
                p6 as int,
                p6 + 1,
                seq!['"'],
                escape(nv.content) + seq!['"'] + rep_from_tags(nv),
            );
        }
    }
    if p6 >= len || v[p6] != '"' {
        proof {
            assert forall|nv: crate::note::NoteView| render_note_rep(nv) != v@ by {
                if render_note_rep(nv) == v@ {
                    assert(v@.skip(p6 as int).len() == len - p6);
                    assert(v@.skip(p6 as int)[0] == v@[p6 as int]);
                    assert((str_field(nv.content) + rep_from_tags(nv))[0] == '"');
                    assert(false);
                }
            }
        }
        return None;
    }
    let (cl, p8) = match parse_string(v, p6 + 1) {
        Some(pr) => pr,
        None => {
            proof {
                assert forall|nv: crate::note::NoteView| render_note_rep(nv) != v@ by {
                    if render_note_rep(nv) == v@ {
                        assert(str_tail_at(v@, p6 + 1, nv.content, rep_from_tags(nv)));
                        assert(false);
                    }
                }
            }
            return None;
        },
    };
    proof {
        assert forall|nv: crate::note::NoteView| #[trigger] render_note_rep(nv) == v@ implies cl@
            == nv.content && v@.skip(p8 as int) == rep_from_tags(nv) by {
            assert(str_tail_at(v@, p6 + 1, nv.content, rep_from_tags(nv)));
            assert(v@.skip(p6 + 1) == escape(nv.content) + seq!['"'] + rep_from_tags(nv));
            assert(escape(nv.content) + seq!['"'] + rep_from_tags(nv) =~= (escape(nv.content)
                + seq!['"']) + rep_from_tags(nv));
            lemma_skip_parts(
                v@,
                p6 + 1,
                p8 as int,
                escape(nv.content) + seq!['"'],
                rep_from_tags(nv),
            );
        }
        assert(v@.subrange(0, p8 as int) =~= prefix_rep(idv, tl@, cl@)) by {
            assert(v@.subrange(0, 7) == lit_a());
            assert(v@.subrange(7, 43) == crate::hexid::id_rep(idv));
            assert(v@.subrange(43, 53) == lit_b());
            assert(v@.subrange(53, 54) =~= seq!['"']);
            assert(v@.subrange(54, p5 as int) == escape(tl@) + seq!['"']);
            assert(v@.subrange(p5 as int, p6 as int) == lit_c());
            assert(v@.subrange(p6 as int, p6 + 1) =~= seq!['"']);
            assert(v@.subrange(p6 + 1, p8 as int) == escape(cl@) + seq!['"']);
            assert(v@.subrange(0, p8 as int) =~= v@.subrange(0, 7) + v@.subrange(7, 43)
                + v@.subrange(43, 53) + v@.subrange(53, 54) + v@.subrange(54, p5 as int)
                + v@.subrange(p5 as int, p6 as int) + v@.subrange(p6 as int, p6 + 1) + v@.subrange(
                p6 + 1,
                p8 as int,
            ));
            assert(prefix_rep(idv, tl@, cl@) =~= lit_a() + crate::hexid::id_rep(idv) + lit_b()
                + seq!['"'] + (escape(tl@) + seq!['"']) + lit_c() + seq!['"'] + (escape(cl@)
                + seq!['"']));
        }
    }
    Some((idv, tl, cl, p8))
}

/// The rendering of the two timestamps and the closing brace.
pub open spec fn ints_rep(ca: i64, ua: i64) -> Seq<char> {
    lit_e() + crate::digits::int_rep(ca as int) + lit_f() + crate::digits::int_rep(ua as int)
        + seq!['}']
}

#[verifier::rlimit(100)]
fn parse_note_tags(v: &Vec<char>, p8: usize) -> (r: Option<(Vec<String>, usize)>)
    requires
        p8 <= v@.len(),
        forall|nv: crate::note::NoteView| #[trigger] render_note_rep(nv) == v@ ==> v@.skip(
            p8 as int,
        ) == rep_from_tags(nv),
    ensures
        r matches Some(q) ==> p8 <= q.1 <= v@.len() && v@.subrange(p8 as int, q.1 as int) == lit_d()
            + tags_rep(q.0.deep_view()),
        forall|nv: crate::note::NoteView| #[trigger] render_note_rep(nv) == v@ ==> (r matches Some(
            q,
        ) && q.0.deep_view() == nv.tags && v@.skip(q.1 as int) == rep_from_created(nv)),
{
    let ld = lit_d_vec();
    let p9 = match expect(v, p8, &ld) {
        Some(j) => j,
        None => {
            proof {
                assert forall|nv: crate::note::NoteView| render_note_rep(nv) != v@ by {
                    if render_note_rep(nv) == v@ {
                        assert(rep_from_tags(nv) =~= lit_d() + (tags_rep(nv.tags)
                            + rep_from_created(nv)));
                        lemma_skip_parts(
                            v@,
                            p8 as int,
                            p8 + 8,
                            lit_d(),
                            tags_rep(nv.tags) + rep_from_created(nv),
                        );
                        assert(false);
                    }
                }
            }
            return None;
        },
    };
    proof {
        assert forall|nv: crate::note::NoteView| #[trigger] render_note_rep(nv) == v@ implies p9
            == p8 + 8 && tags_at(v@, p9 as int, nv.tags, rep_from_created(nv)) by {
            assert(rep_from_tags(nv) =~= lit_d() + (tags_rep(nv.tags) + rep_from_created(nv)));
            lemma_skip_parts(
                v@,
                p8 as int,
                p8 + 8,
                lit_d(),
                tags_rep(nv.tags) + rep_from_created(nv),
            );
        }
    }
    let (tgs, p10) = match parse_tags_arr(v, p9) {
        Some(pr) => pr,
        None => {
            proof {
                assert forall|nv: crate::note::NoteView| render_note_rep(nv) != v@ by {
                    if render_note_rep(nv) == v@ {
                        assert(tags_at(v@, p9 as int, nv.tags, rep_from_created(nv)));
                        assert(false);
                    }
                }
            }
            return None;
        },
    };
    proof {
        assert forall|nv: crate::note::NoteView| #[trigger] render_note_rep(nv) == v@ implies tgs.deep_view()
            == nv.tags && v@.skip(p10 as int) == rep_from_created(nv) by {
            assert(tags_at(v@, p9 as int, nv.tags, rep_from_created(nv)));
            assert(v@.skip(p9 as int) == tags_rep(nv.tags) + rep_from_created(nv));
            lemma_skip_parts(v@, p9 as int, p10 as int, tags_rep(nv.tags), rep_from_created(nv));
        }
        assert(v@.subrange(p8 as int, p10 as int) =~= lit_d() + tags_rep(tgs.deep_view())) by {
            assert(v@.subrange(p8 as int, p9 as int) == lit_d());
            assert(v@.subrange(p9 as int, p10 as int) == tags_rep(tgs.deep_view()));
            assert(v@.subrange(p8 as int, p10 as int) =~= v@.subrange(p8 as int, p9 as int)
                + v@.subrange(p9 as int, p10 as int));
        }
    }
    Some((tgs, p10))
}

#[verifier::rlimit(100)]
fn parse_note_ints(v: &Vec<char>, p10: usize) -> (r: Option<(i64, i64)>)
    requires
        p10 <= v@.len(),
        forall|nv: crate::note::NoteView| #[trigger] render_note_rep(nv) == v@ ==> v@.skip(
            p10 as int,
        ) == rep_from_created(nv),
    ensures
        r matches Some(q) ==> v@.skip(p10 as int) == ints_rep(q.0, q.1),
        forall|nv: crate::note::NoteView| #[trigger] render_note_rep(nv) == v@ ==> (r matches Some(
            q,
        ) && q.0 == nv.created_at && q.1 == nv.updated_at),
{
    let len = v.len();
    let le = lit_e_vec();
    let p11 = match expect(v, p10, &le) {
        Some(j) => j,
        None => {
            proof {
                assert forall|nv: crate::note::NoteView| render_note_rep(nv) != v@ by {
                    if render_note_rep(nv) == v@ {
                        assert(rep_from_created(nv) =~= lit_e() + (crate::digits::int_rep(
                            nv.created_at as int,
                        ) + rep_from_updated(nv)));
                        lemma_skip_parts(
                            v@,
                            p10 as int,
                            p10 + 14,
                            lit_e(),
                            crate::digits::int_rep(nv.created_at as int) + rep_from_updated(nv),
                        );
                        assert(false);
                    }
                }
            }
            return None;
        },
    };
    proof {
        assert forall|nv: crate::note::NoteView| #[trigger] render_note_rep(nv) == v@ implies p11
            == p10 + 14 && crate::digits::int_at(v@, p11 as int, nv.created_at) && v@.skip(
            p11 as int,
        ) == crate::digits::int_rep(nv.created_at as int) + rep_from_updated(nv) by {
            assert(rep_from_created(nv) =~= lit_e() + (crate::digits::int_rep(nv.created_at as int)
                + rep_from_updated(nv)));
            lemma_skip_parts(
                v@,
                p10 as int,
                p10 + 14,
                lit_e(),
                crate::digits::int_rep(nv.created_at as int) + rep_from_updated(nv),
            );
            let irep = crate::digits::int_rep(nv.created_at as int);
            lemma_skip_parts(v@, p11 as int, p11 + irep.len(), irep, rep_from_updated(nv));
            assert(v@.skip(p11 + irep.len())[0] == v@[p11 + irep.len()]);
            assert(rep_from_updated(nv)[0] == ',');
            assert(!crate::digits::is_digit(','));
        }
    }
    let (ca, p12) = match crate::digits::parse_int(v, p11) {
        Some(pr) => pr,
        None => {
            proof {
                assert forall|nv: crate::note::NoteView| render_note_rep(nv) != v@ by {
                    if render_note_rep(nv) == v@ {
                        assert(crate::digits::int_at(v@, p11 as int, nv.created_at));
                        assert(false);
                    }
                }
            }
            return None;
        },
    };
    proof {
        assert forall|nv: crate::note::NoteView| #[trigger] render_note_rep(nv) == v@ implies ca
            == nv.created_at && p12 == p11 + crate::digits::int_rep(nv.created_at as int).len()
            && v@.skip(p12 as int) == rep_from_updated(nv) by {
            assert(crate::digits::int_at(v@, p11 as int, nv.created_at));
            let irep = crate::digits::int_rep(nv.created_at as int);
            lemma_skip_parts(v@, p11 as int, p11 + irep.len(), irep, rep_from_updated(nv));
        }
    }
    let lf = lit_f_vec();
    let p13 = match expect(v, p12, &lf) {
        Some(j) => j,
        None => {
            proof {
                assert forall|nv: crate::note::NoteView| render_note_rep(nv) != v@ by {
                    if render_note_rep(nv) == v@ {
                        assert(rep_from_updated(nv) =~= lit_f() + (crate::digits::int_rep(
                            nv.updated_at as int,
                        ) + seq!['}']));
                        lemma_skip_parts(
                            v@,
                            p12 as int,
                            p12 + 14,
                            lit_f(),
                            crate::digits::int_rep(nv.updated_at as int) + seq!['}'],
                        );
                        assert(false);
                    }
                }
            }
            return None;
        },
    };
    proof {
        assert forall|nv: crate::note::NoteView| #[trigger] render_note_rep(nv) == v@ implies p13
            == p12 + 14 && crate::digits::int_at(v@, p13 as int, nv.updated_at) && v@.skip(
            p13 as int,
        ) == crate::digits::int_rep(nv.updated_at as int) + seq!['}'] by {
            assert(rep_from_updated(nv) =~= lit_f() + (crate::digits::int_rep(nv.updated_at as int)
                + seq!['}']));
            lemma_skip_parts(
                v@,
                p12 as int,
                p12 + 14,
                lit_f(),
                crate::digits::int_rep(nv.updated_at as int) + seq!['}'],
            );
            let irep = crate::digits::int_rep(nv.updated_at as int);
            lemma_skip_parts(v@, p13 as int, p13 + irep.len(), irep, seq!['}']);
            assert(v@.skip(p13 + irep.len())[0] == v@[p13 + irep.len()]);
            assert(!crate::digits::is_digit('}'));
        }
    }
    let (ua, p14) = match crate::digits::parse_int(v, p13) {
        Some(pr) => pr,
        None => {
            proof {
                assert forall|nv: crate::note::NoteView| render_note_rep(nv) != v@ by {
                    if render_note_rep(nv) == v@ {
                        assert(crate::digits::int_at(v@, p13 as int, nv.updated_at));
                        assert(false);
                    }
                }
            }
            return None;
        },
    };
    proof {
        assert forall|nv: crate::note::NoteView| #[trigger] render_note_rep(nv) == v@ implies ua
            == nv.updated_at && p14 == p13 + crate::digits::int_rep(nv.updated_at as int).len()
            && v@.skip(p14 as int) == seq!['}'] by {
            assert(crate::digits::int_at(v@, p13 as int, nv.updated_at));
            let irep = crate::digits::int_rep(nv.updated_at as int);
            lemma_skip_parts(v@, p13 as int, p13 + irep.len(), irep, seq!['}']);
        }
    }
    if p14 >= len || v[p14] != '}' || p14 + 1 != len {
        proof {
            assert forall|nv: crate::note::NoteView| render_note_rep(nv) != v@ by {
                if render_note_rep(nv) == v@ {
                    assert(v@.skip(p14 as int).len() == len - p14);
                    assert(v@.skip(p14 as int)[0] == v@[p14 as int]);
                    assert(false);
                }
            }
        }
        return None;
    }
    proof {
        assert(v@.skip(p10 as int) =~= ints_rep(ca, ua)) by {
            assert(v@.subrange(p10 as int, p11 as int) == lit_e());
            assert(v@.subrange(p11 as int, p12 as int) == crate::digits::int_rep(ca as int));
            assert(v@.subrange(p12 as int, p13 as int) == lit_f());
            assert(v@.subrange(p13 as int, p14 as int) == crate::digits::int_rep(ua as int));
            assert(v@.subrange(p14 as int, len as int) =~= seq!['}']);
            assert(v@.skip(p10 as int) =~= v@.subrange(p10 as int, p11 as int) + v@.subrange(
                p11 as int,
                p12 as int,
            ) + v@.subrange(p12 as int, p13 as int) + v@.subrange(p13 as int, p14 as int)
                + v@.subrange(p14 as int, len as int));
        }
    }
    Some((ca, ua))
}

/// Parses a canonical note record, the inverse of `render_note`: the result
/// is a note exactly on the strings that `render_note` produces.
pub fn parse_note(s: &str) -> (r: Option<crate::note::Note>)
    ensures
        r matches Some(n) ==> s@ == render_note_rep(n@),
        forall|nv: crate::note::NoteView| #[trigger] render_note_rep(nv) == s@ ==> (r matches Some(
            n,
        ) && n@ == nv),
{
    let v = crate::chars::str_to_chars(s);
    let (idv, tl, cl, p8) = match parse_note_prefix(&v) {
        Some(q) => q,
        None => {
            return None;
        },
    };
    let (tgs, p10) = match parse_note_tags(&v, p8) {
        Some(q) => q,
        None => {
            return None;
        },
    };
    let (ca, ua) = match parse_note_ints(&v, p10) {
        Some(q) => q,
        None => {
            return None;
        },
    };
    let title = crate::chars::chars_to_string(&tl);
    let content = crate::chars::chars_to_string(&cl);
    let n = crate::note::Note {
        id: idv,
        title,
        content,
        tags: tgs,
        created_at: ca,
        updated_at: ua,
    };
    proof {
        assert(s@ =~= v@.subrange(0, p8 as int) + v@.subrange(p8 as int, p10 as int) + v@.skip(
            p10 as int,
        ));
        assert(render_note_rep(n@) =~= prefix_rep(n@.id, n@.title, n@.content) + (lit_d()
            + tags_rep(n@.tags)) + ints_rep(n@.created_at, n@.updated_at));
        assert(s@ == render_note_rep(n@));
        assert forall|nv: crate::note::NoteView| #[trigger] render_note_rep(nv) == s@ implies n@
            == nv by {
            assert(n@ =~= nv);
        }
    }
    Some(n)
}


pub proof fn lemma_cancel_prefix(p: Seq<char>, x: Seq<char>, y: Seq<char>)
    requires
        p + x == p + y,
    ensures
        x == y,
{
    broadcast use vstd::seq::group_seq_axioms;

    let n = p.len() as int;
    assert((p + x).len() == (p + y).len());
    assert((p + x).len() == p.len() + x.len());
    assert((p + y).len() == p.len() + y.len());
    assert(x.len() == y.len());
    assert(x =~= y) by {
        assert forall|i: int| 0 <= i < x.len() implies x[i] == y[i] by {
            assert(0 <= i < y.len());
            assert(0 <= n + i < (p + x).len());
            assert((p + x)[n + i] == x[i]);
            assert((p + x)[n + i] == (p + y)[n + i]);
            assert((p + y)[n + i] == y[i]);
        }
    }
}

/// The escaped, quote-terminated form of a string determines the string and
/// what follows it: backslash escaping is a prefix code.
pub proof fn lemma_escape_prefix_code(t1: Seq<char>, r1: Seq<char>, t2: Seq<char>, r2: Seq<char>)
    requires
        escape(t1) + seq!['"'] + r1 == escape(t2) + seq!['"'] + r2,
    ensures
        t1 == t2,
        r1 == r2,
    decreases t1.len(),
{
    let l = escape(t1) + seq!['"'] + r1;
    if t1.len() == 0 && t2.len() == 0 {
        assert(escape(t1) =~= Seq::<char>::empty());
        assert(escape(t2) =~= Seq::<char>::empty());
        assert(t1 =~= t2);
        assert(seq!['"'] + r1 == seq!['"'] + r2);
        lemma_cancel_prefix(seq!['"'], r1, r2);
    } else if t1.len() == 0 {
        assert(escape(t1) =~= Seq::<char>::empty());
        assert(l[0] == '"');
        lemma_escape_decompose(t2, 0);
        assert(t2.take(0) =~= Seq::<char>::empty());
        assert(escape(t2) == esc_char(t2[0]) + escape(t2.skip(1)));
        assert(l[0] == esc_char(t2[0])[0]);
        assert(false);
    } else if t2.len() == 0 {
        assert(escape(t2) =~= Seq::<char>::empty());
        assert(l[0] == '"');
        lemma_escape_decompose(t1, 0);
        assert(t1.take(0) =~= Seq::<char>::empty());
        assert(escape(t1) == esc_char(t1[0]) + escape(t1.skip(1)));
        assert(l[0] == esc_char(t1[0])[0]);
        assert(false);
    } else {
        lemma_escape_decompose(t1, 0);
        lemma_escape_decompose(t2, 0);
        assert(t1.take(0) =~= Seq::<char>::empty());
        assert(t2.take(0) =~= Seq::<char>::empty());
        assert(escape(t1) == esc_char(t1[0]) + escape(t1.skip(1)));
        assert(escape(t2) == esc_char(t2[0]) + escape(t2.skip(1)));
        assert(l[0] == esc_char(t1[0])[0]);
        assert(l[0] == esc_char(t2[0])[0]);
        if is_esc(t1[0]) && is_esc(t2[0]) {
            assert(l[1] == t1[0]);
            assert(l[1] == t2[0]);
            assert(t1[0] == t2[0]);
            assert(escape(t1) + seq!['"'] + r1 =~= esc_char(t1[0]) + (escape(t1.skip(1))
                + seq!['"'] + r1));
            assert(escape(t2) + seq!['"'] + r2 =~= esc_char(t2[0]) + (escape(t2.skip(1))
                + seq!['"'] + r2));
            lemma_cancel_prefix(
                esc_char(t1[0]),
                escape(t1.skip(1)) + seq!['"'] + r1,
                escape(t2.skip(1)) + seq!['"'] + r2,
            );
            lemma_escape_prefix_code(t1.skip(1), r1, t2.skip(1), r2);
            assert(t1 =~= seq![t1[0]] + t1.skip(1));
            assert(t2 =~= seq![t2[0]] + t2.skip(1));
        } else if !is_esc(t1[0]) && !is_esc(t2[0]) {
            assert(t1[0] == t2[0]);
            assert(escape(t1) + seq!['"'] + r1 =~= esc_char(t1[0]) + (escape(t1.skip(1))
                + seq!['"'] + r1));
            assert(escape(t2) + seq!['"'] + r2 =~= esc_char(t2[0]) + (escape(t2.skip(1))
                + seq!['"'] + r2));
            lemma_cancel_prefix(
                esc_char(t1[0]),
                escape(t1.skip(1)) + seq!['"'] + r1,
                escape(t2.skip(1)) + seq!['"'] + r2,
            );
            lemma_escape_prefix_code(t1.skip(1), r1, t2.skip(1), r2);
            assert(t1 =~= seq![t1[0]] + t1.skip(1));
            assert(t2 =~= seq![t2[0]] + t2.skip(1));
        } else {
            assert(false);
        }
    }
}

/// The rendered tag array determines the tags and what follows it.
pub proof fn lemma_tags_body_prefix_code(
    x: Seq<Seq<char>>,
    r1: Seq<char>,
    y: Seq<Seq<char>>,
    r2: Seq<char>,
)
    requires
        tags_body(x) + seq![']'] + r1 == tags_body(y) + seq![']'] + r2,
    ensures
        x == y,
        r1 == r2,
    decreases x.len(),
{
    let l = tags_body(x) + seq![']'] + r1;
    if x.len() == 0 && y.len() == 0 {
        assert(x =~= y);
        assert(tags_body(x) =~= Seq::<char>::empty());
        assert(tags_body(y) =~= Seq::<char>::empty());
        lemma_cancel_prefix(seq![']'], r1, r2);
    } else if x.len() == 0 {
        assert(tags_body(x) =~= Seq::<char>::empty());
        assert(l[0] == ']');
        lemma_tags_body_split(y, 0);
        assert(y.take(0) =~= Seq::<Seq<char>>::empty());
        assert(l[0] == str_field(y[0])[0]);
        assert(str_field(y[0])[0] == '"');
        assert(false);
    } else if y.len() == 0 {
        assert(tags_body(y) =~= Seq::<char>::empty());
        assert(l[0] == ']');
        lemma_tags_body_split(x, 0);
        assert(x.take(0) =~= Seq::<Seq<char>>::empty());
        assert(l[0] == str_field(x[0])[0]);
        assert(str_field(x[0])[0] == '"');
        assert(false);
    } else {
        let tx: Seq<char> = if x.len() > 1 {
            seq![','] + tags_body(x.skip(1))
        } else {
            Seq::<char>::empty()
        };
        let ty: Seq<char> = if y.len() > 1 {
            seq![','] + tags_body(y.skip(1))
        } else {
            Seq::<char>::empty()
        };
        lemma_tags_body_split(x, 0);
        lemma_tags_body_split(y, 0);
        assert(x.take(0) =~= Seq::<Seq<char>>::empty());
        assert(y.take(0) =~= Seq::<Seq<char>>::empty());
        assert(x.skip(1) =~= x.drop_first());
        assert(y.skip(1) =~= y.drop_first());
        assert(tags_body(x) == str_field(x[0]) + tx);
        assert(tags_body(y) == str_field(y[0]) + ty);
        assert(tags_body(x) + seq![']'] + r1 =~= seq!['"'] + (escape(x[0]) + seq!['"'] + (tx
            + seq![']'] + r1)));
        assert(tags_body(y) + seq![']'] + r2 =~= seq!['"'] + (escape(y[0]) + seq!['"'] + (ty
            + seq![']'] + r2)));
        lemma_cancel_prefix(
            seq!['"'],
            escape(x[0]) + seq!['"'] + (tx + seq![']'] + r1),
            escape(y[0]) + seq!['"'] + (ty + seq![']'] + r2),
        );
        lemma_escape_prefix_code(x[0], tx + seq![']'] + r1, y[0], ty + seq![']'] + r2);
        let m = tx + seq![']'] + r1;
        if x.len() > 1 && y.len() > 1 {
            assert(m[0] == ',');
            assert(tx + seq![']'] + r1 =~= seq![','] + (tags_body(x.skip(1)) + seq![']'] + r1));
            assert(ty + seq![']'] + r2 =~= seq![','] + (tags_body(y.skip(1)) + seq![']'] + r2));
            lemma_cancel_prefix(
                seq![','],
                tags_body(x.skip(1)) + seq![']'] + r1,
                tags_body(y.skip(1)) + seq![']'] + r2,
            );
            lemma_tags_body_prefix_code(x.skip(1), r1, y.skip(1), r2);
            assert(x =~= seq![x[0]] + x.skip(1));
            assert(y =~= seq![y[0]] + y.skip(1));
        } else if x.len() == 1 && y.len() == 1 {
            assert(tx =~= Seq::<char>::empty());
            assert(ty =~= Seq::<char>::empty());
            assert(tx + seq![']'] + r1 =~= seq![']'] + r1);
            assert(ty + seq![']'] + r2 =~= seq![']'] + r2);
            lemma_cancel_prefix(seq![']'], r1, r2);
            assert(x =~= seq![x[0]]);
            assert(y =~= seq![y[0]]);
        } else if x.len() > 1 {
            assert(m[0] == ',');
            assert((ty + seq![']'] + r2)[0] == ']');
            assert(false);
        } else {
            assert(m[0] == ']');
            assert((ty + seq![']'] + r2)[0] == ',');
            assert(false);
        }
    }
}

/// A rendered number followed by a non-digit determines the number and what
/// follows it.
pub proof fn lemma_int_prefix_code(a: i64, r1: Seq<char>, b: i64, r2: Seq<char>)
    requires
        crate::digits::int_rep(a as int) + r1 == crate::digits::int_rep(b as int) + r2,
        r1.len() == 0 || !crate::digits::is_digit(r1[0]),
        r2.len() == 0 || !crate::digits::is_digit(r2[0]),
    ensures
        a == b,
        r1 == r2,
{
    let ma = crate::digits::mag_of(a);
    let mb = crate::digits::mag_of(b);
    let l = crate::digits::int_rep(a as int) + r1;
    crate::digits::lemma_dec_rep_digits(ma);
    crate::digits::lemma_dec_rep_digits(mb);
    assert(!crate::digits::is_digit('-'));
    if a < 0 && b >= 0 {
        assert(l[0] == '-');
        assert(l[0] == crate::digits::dec_rep(mb)[0]);
        assert(false);
    }
    if a >= 0 && b < 0 {
        assert(l[0] == '-');
        assert(l[0] == crate::digits::dec_rep(ma)[0]);
        assert(false);
    }
    if a < 0 {
        assert(crate::digits::int_rep(a as int) + r1 =~= seq!['-'] + (crate::digits::dec_rep(ma)
            + r1));
        assert(crate::digits::int_rep(b as int) + r2 =~= seq!['-'] + (crate::digits::dec_rep(mb)
            + r2));
        lemma_cancel_prefix(
            seq!['-'],
            crate::digits::dec_rep(ma) + r1,
            crate::digits::dec_rep(mb) + r2,
        );
    }
    let la = crate::digits::dec_rep(ma).len() as int;
    let lb = crate::digits::dec_rep(mb).len() as int;
    let d = crate::digits::dec_rep(ma) + r1;
    assert(d == crate::digits::dec_rep(mb) + r2);
    assert(la == lb) by {
        if la < lb {
            assert(d[la] == r1[0]);
            assert(d[la] == crate::digits::dec_rep(mb)[la]);
            assert(crate::digits::is_digit(crate::digits::dec_rep(mb)[la]));
            assert(r1.len() > 0);
            assert(false);
        }
        if lb < la {
            assert(d[lb] == r2[0]);
            assert(d[lb] == crate::digits::dec_rep(ma)[lb]);
            assert(crate::digits::is_digit(crate::digits::dec_rep(ma)[lb]));
            assert(r2.len() > 0);
            assert(false);
        }
    }
    assert(crate::digits::dec_rep(ma) =~= crate::digits::dec_rep(mb)) by {
        assert forall|q: int| 0 <= q < la implies crate::digits::dec_rep(ma)[q]
            == crate::digits::dec_rep(mb)[q] by {
            assert(d[q] == crate::digits::dec_rep(ma)[q]);
            assert(d[q] == crate::digits::dec_rep(mb)[q]);
        }
    }
    crate::digits::lemma_dec_rep_injective(ma, mb);
    lemma_cancel_prefix(crate::digits::dec_rep(ma), r1, r2);
}

/// Two notes with the same rendering are the same note: the record form
/// carries every field faithfully.
#[verifier::rlimit(100)]
pub proof fn lemma_render_injective(a: crate::note::NoteView, b: crate::note::NoteView)
    requires
        render_note_rep(a) == render_note_rep(b),
    ensures
        a == b,
{
    let s = render_note_rep(a);
    crate::hexid::lemma_id_rep_len(a.id);
    crate::hexid::lemma_id_rep_len(b.id);
    assert(render_note_rep(a) =~= lit_a() + (crate::hexid::id_rep(a.id) + (lit_b()
        + rep_from_title(a))));
    assert(render_note_rep(b) =~= lit_a() + (crate::hexid::id_rep(b.id) + (lit_b()
        + rep_from_title(b))));
    lemma_cancel_prefix(
        lit_a(),
        crate::hexid::id_rep(a.id) + (lit_b() + rep_from_title(a)),
        crate::hexid::id_rep(b.id) + (lit_b() + rep_from_title(b)),
    );
    assert(crate::hexid::id_rep(a.id) =~= crate::hexid::id_rep(b.id)) by {
        let u = crate::hexid::id_rep(a.id) + (lit_b() + rep_from_title(a));
        assert forall|q: int| 0 <= q < 36 implies crate::hexid::id_rep(a.id)[q]
            == crate::hexid::id_rep(b.id)[q] by {
            assert(u[q] == crate::hexid::id_rep(a.id)[q]);
            assert(u[q] == crate::hexid::id_rep(b.id)[q]);
        }
    }
    crate::hexid::lemma_id_rep_injective(a.id, b.id);
    lemma_cancel_prefix(
        crate::hexid::id_rep(a.id),
        lit_b() + rep_from_title(a),
        lit_b() + rep_from_title(b),
    );
    lemma_cancel_prefix(lit_b(), rep_from_title(a), rep_from_title(b));
    assert(rep_from_title(a) =~= seq!['"'] + (escape(a.title) + seq!['"'] + rep_from_content(a)));
    assert(rep_from_title(b) =~= seq!['"'] + (escape(b.title) + seq!['"'] + rep_from_content(b)));
    lemma_cancel_prefix(
        seq!['"'],
        escape(a.title) + seq!['"'] + rep_from_content(a),
        escape(b.title) + seq!['"'] + rep_from_content(b),
    );
    lemma_escape_prefix_code(a.title, rep_from_content(a), b.title, rep_from_content(b));
    assert(rep_from_content(a) =~= lit_c() + (seq!['"'] + (escape(a.content) + seq!['"']
        + rep_from_tags(a))));
    assert(rep_from_content(b) =~= lit_c() + (seq!['"'] + (escape(b.content) + seq!['"']
        + rep_from_tags(b))));
    lemma_cancel_prefix(
        lit_c(),
        seq!['"'] + (escape(a.content) + seq!['"'] + rep_from_tags(a)),
        seq!['"'] + (escape(b.content) + seq!['"'] + rep_from_tags(b)),
    );
    lemma_cancel_prefix(
        seq!['"'],
        escape(a.content) + seq!['"'] + rep_from_tags(a),
        escape(b.content) + seq!['"'] + rep_from_tags(b),
    );
    lemma_escape_prefix_code(a.content, rep_from_tags(a), b.content, rep_from_tags(b));
    assert(rep_from_tags(a) =~= lit_d() + (seq!['['] + (tags_body(a.tags) + seq![']']
        + rep_from_created(a))));
    assert(rep_from_tags(b) =~= lit_d() + (seq!['['] + (tags_body(b.tags) + seq![']']
        + rep_from_created(b))));
    lemma_cancel_prefix(
        lit_d(),
        seq!['['] + (tags_body(a.tags) + seq![']'] + rep_from_created(a)),
        seq!['['] + (tags_body(b.tags) + seq![']'] + rep_from_created(b)),
    );
    lemma_cancel_prefix(
        seq!['['],
        tags_body(a.tags) + seq![']'] + rep_from_created(a),
        tags_body(b.tags) + seq![']'] + rep_from_created(b),
    );
    lemma_tags_body_prefix_code(a.tags, rep_from_created(a), b.tags, rep_from_created(b));
    assert(rep_from_created(a) =~= lit_e() + (crate::digits::int_rep(a.created_at as int)
        + rep_from_updated(a)));
    assert(rep_from_created(b) =~= lit_e() + (crate::digits::int_rep(b.created_at as int)
        + rep_from_updated(b)));
    lemma_cancel_prefix(
        lit_e(),
        crate::digits::int_rep(a.created_at as int) + rep_from_updated(a),
        crate::digits::int_rep(b.created_at as int) + rep_from_updated(b),
    );
    assert(rep_from_updated(a)[0] == ',');
    assert(rep_from_updated(b)[0] == ',');
    assert(!crate::digits::is_digit(','));
    lemma_int_prefix_code(a.created_at, rep_from_updated(a), b.created_at, rep_from_updated(b));
    assert(rep_from_updated(a) =~= lit_f() + (crate::digits::int_rep(a.updated_at as int)
        + seq!['}']));
    assert(rep_from_updated(b) =~= lit_f() + (crate::digits::int_rep(b.updated_at as int)
        + seq!['}']));
    lemma_cancel_prefix(
        lit_f(),
        crate::digits::int_rep(a.updated_at as int) + seq!['}'],
        crate::digits::int_rep(b.updated_at as int) + seq!['}'],
    );
    assert(!crate::digits::is_digit('}'));
    lemma_int_prefix_code(a.updated_at, seq!['}'], b.updated_at, seq!['}']);
    assert(a =~= b);
}

} // verus!
