use vstd::prelude::*;
use crate::digits::{dec_rep, digit_char};
use crate::chars::{append_chars, chars_to_string};
use crate::hexid::id_rep;
use crate::note::Note;

verus! {

/// The power of 1024 that scales a byte count into its display unit.
pub open spec fn unit_divisor(bytes: nat) -> nat {
    if bytes < 1024 {
        1
    } else if bytes < 1048576 {
        1024
    } else if bytes < 1073741824 {
        1048576
    } else if bytes < 1099511627776 {
        1073741824
    } else {
        1099511627776
    }
}

pub open spec fn unit_suffix(bytes: nat) -> Seq<char> {
    if bytes < 1024 {
        seq![' ', 'B']
    } else if bytes < 1048576 {
        seq![' ', 'K', 'B']
    } else if bytes < 1073741824 {
        seq![' ', 'M', 'B']
    } else if bytes < 1099511627776 {
        seq![' ', 'G', 'B']
    } else {
        seq![' ', 'T', 'B']
    }
}

/// The scaled value in hundredths of a unit, rounded to the nearest
/// hundredth, halves up.
pub open spec fn scaled_hundredths(bytes: nat) -> nat {
    (bytes * 200 + unit_divisor(bytes)) / (2 * unit_divisor(bytes))
}

/// A byte count scaled by powers of 1024 and printed with two decimals,
/// e.g. `1536` as `1.50 KB`.
pub open spec fn format_bytes_rep(bytes: nat) -> Seq<char> {
    let h = scaled_hundredths(bytes);
    dec_rep(h / 100) + seq!['.', digit_char((h / 10 % 10) as int), digit_char((h % 10) as int)]
        + unit_suffix(bytes)
}

/// Renders a byte count in a human scale: divided by 1024 per unit step,
/// two decimals, with the unit suffix.
pub fn format_bytes(bytes: u64) -> (r: String)
    ensures
        r@ == format_bytes_rep(bytes as nat),
{
    let d: u64 = if bytes < 1024 {
        1
    } else if bytes < 1048576 {
        1024
    } else if bytes < 1073741824 {
        1048576
    } else if bytes < 1099511627776 {
        1073741824
    } else {
        1099511627776
    };
    proof {
        assert(d as nat == unit_divisor(bytes as nat));
    }
    let wide: u128 = ((bytes as u128) * 200 + (d as u128)) / (2 * (d as u128));
    proof {
        let b = bytes as nat;
        let dn = d as nat;
        assert(wide as nat == (b * 200 + dn) / (2 * dn)) by (nonlinear_arith)
            requires
                wide as nat == ((bytes as u128) as nat * 200 + dn) / (2 * dn),
                (bytes as u128) as nat == b,
                dn > 0,
        ;
        assert(b < 16777216 * dn) by (nonlinear_arith)
            requires
                dn == unit_divisor(b),
                b == bytes as nat,
                bytes <= u64::MAX,
                dn == if b < 1024 {
                    1nat
                } else if b < 1048576 {
                    1024nat
                } else if b < 1073741824 {
                    1048576nat
                } else if b < 1099511627776 {
                    1073741824nat
                } else {
                    1099511627776nat
                },
        ;
        assert(wide as nat <= 1677721600) by (nonlinear_arith)
            requires
                wide as nat == (b * 200 + dn) / (2 * dn),
                b < 16777216 * dn,
                dn > 0,
        ;
    }
    let h: u64 = wide as u64;
    let ip = crate::digits::render_u64(h / 100);
    let mut out: Vec<char> = Vec::new();
    append_chars(&mut out, &ip);
    out.push('.');
    out.push(crate::digits::digit_to_char(h / 10 % 10));
    out.push(crate::digits::digit_to_char(h % 10));
    if bytes < 1024 {
        out.push(' ');
        out.push('B');
    } else if bytes < 1048576 {
        out.push(' ');
        out.push('K');
        out.push('B');
    } else if bytes < 1073741824 {
        out.push(' ');
        out.push('M');
        out.push('B');
    } else if bytes < 1099511627776 {
        out.push(' ');
        out.push('G');
        out.push('B');
    } else {
        out.push(' ');
        out.push('T');
        out.push('B');
    }
    proof {
        assert(h as nat == scaled_hundredths(bytes as nat));
        assert(out@ =~= format_bytes_rep(bytes as nat));
    }
    chars_to_string(&out)
}

/// The share of memory in use, in whole percent, rounded down; zero when
/// nothing is there to measure.
pub open spec fn percent_of(used: nat, total: nat) -> nat {
    if total == 0 {
        0
    } else if used * 100 / total > 0xffffffff {
        0xffffffff
    } else {
        used * 100 / total
    }
}

/// The used share of memory in whole percent.
pub fn mem_percent(used: u64, total: u64) -> (r: u32)
    ensures
        r as nat == percent_of(used as nat, total as nat),
{
    if total == 0 {
        return 0;
    }
    let p: u128 = (used as u128) * 100 / (total as u128);
    proof {
        assert(p as nat == (used as nat) * 100 / (total as nat)) by (nonlinear_arith)
            requires
                p as nat == ((used as u128) as nat) * 100 / ((total as u128) as nat),
                (used as u128) as nat == used as nat,
                (total as u128) as nat == total as nat,
                total > 0,
        ;
    }
    if p > 0xffffffff {
        0xffffffffu32
    } else {
        p as u32
    }
}

/// The short identifier fragment shown to the user: the first eight
/// characters of the note's textual identifier.
pub fn short_id(n: &Note) -> (r: String)
    ensures
        r@ == id_rep(n@.id).take(8),
{
    let full = crate::hexid::render_id(n.id);
    let mut out: Vec<char> = Vec::new();
    proof {
        crate::hexid::lemma_id_rep_len(n@.id);
    }
    let mut i: usize = 0;
    while i < 8
        invariant
            i <= 8,
            full@ == id_rep(n@.id),
            full@.len() == 36,
            out@ == full@.take(i as int),
        decreases 8 - i,
    {
        out.push(full[i]);
        i = i + 1;
        proof {
            assert(out@ =~= full@.take(i as int));
        }
    }
    chars_to_string(&out)
}

/// The file name under which the note is persisted.
pub open spec fn filename_rep(id: u128) -> Seq<char> {
    id_rep(id) + seq!['.', 'j', 's', 'o', 'n']
}

/// The file name of a note: its full identifier with the record suffix.
pub fn note_filename(n: &Note) -> (r: String)
    ensures
        r@ == filename_rep(n@.id),
{
    let mut out = crate::hexid::render_id(n.id);
    out.push('.');
    out.push('j');
    out.push('s');
    out.push('o');
    out.push('n');
    proof {
        assert(out@ =~= filename_rep(n@.id));
    }
    chars_to_string(&out)
}


/// The whitespace stripped from the ends of each tag.
pub open spec fn is_space(c: char) -> bool {
    c == ' ' || c == '\t' || c == '\n' || c == '\r'
}

pub open spec fn trim_front(s: Seq<char>) -> Seq<char>
    decreases s.len(),
{
    if s.len() > 0 && is_space(s[0]) {
        trim_front(s.drop_first())
    } else {
        s
    }
}

pub open spec fn trim_back(s: Seq<char>) -> Seq<char>
    decreases s.len(),
{
    if s.len() > 0 && is_space(s.last()) {
        trim_back(s.drop_last())
    } else {
        s
    }
}

/// The text with the surrounding whitespace stripped.
pub open spec fn trimmed(s: Seq<char>) -> Seq<char> {
    trim_back(trim_front(s))
}

/// The pieces of `s` between its commas, in order; empty pieces stay.
pub open spec fn split_commas(s: Seq<char>) -> Seq<Seq<char>>
    decreases s.len(),
{
    if s.len() == 0 {
        seq![Seq::<char>::empty()]
    } else if s[0] == ',' {
        seq![Seq::<char>::empty()] + split_commas(s.drop_first())
    } else {
        let r = split_commas(s.drop_first());
        seq![seq![s[0]] + r[0]] + r.drop_first()
    }
}

/// The tags read from a comma-separated input: each piece trimmed, empty
/// and repeated pieces kept.
pub open spec fn tags_of_csv(s: Seq<char>) -> Seq<Seq<char>> {
    split_commas(s).map_values(|t: Seq<char>| trimmed(t))
}

proof fn lemma_split_len(s: Seq<char>)
    ensures
        split_commas(s).len() >= 1,
    decreases s.len(),
{
    if s.len() > 0 {
        lemma_split_len(s.drop_first());
    }
}

proof fn lemma_split_snoc(s: Seq<char>, c: char)
    ensures
        c == ',' ==> split_commas(s.push(c)) == split_commas(s).push(Seq::<char>::empty()),
        c != ',' ==> split_commas(s.push(c)) == split_commas(s).update(
            split_commas(s).len() - 1,
            split_commas(s).last().push(c),
        ),
    decreases s.len(),
{
    lemma_split_len(s);
    assert(split_commas(Seq::<char>::empty()) == seq![Seq::<char>::empty()]);
    if s.len() == 0 {
        assert(s =~= Seq::<char>::empty());
        assert(split_commas(s) == seq![Seq::<char>::empty()]);
        assert(s.push(c).len() == 1);
        assert(s.push(c)[0] == c);
        assert(s.push(c).drop_first() =~= Seq::<char>::empty());
        assert(split_commas(s.push(c).drop_first()) == seq![Seq::<char>::empty()]);
        if c == ',' {
            assert(split_commas(s.push(c)) =~= split_commas(s).push(Seq::<char>::empty()));
        } else {
            assert(split_commas(s.push(c))[0] =~= seq![c]);
            assert(split_commas(s.push(c)) =~= split_commas(s).update(
                0,
                split_commas(s).last().push(c),
            ));
        }
    } else {
        assert(s.push(c)[0] == s[0]);
        assert(s.push(c).drop_first() =~= s.drop_first().push(c));
        lemma_split_snoc(s.drop_first(), c);
        lemma_split_len(s.drop_first());
        let rd = split_commas(s.drop_first());
        if c == ',' {
            if s[0] == ',' {
                assert(split_commas(s.push(c)) =~= (seq![Seq::<char>::empty()] + rd).push(
                    Seq::<char>::empty(),
                ));
            } else {
                assert(rd.push(Seq::<char>::empty()).drop_first() =~= rd.drop_first().push(
                    Seq::<char>::empty(),
                ));
                assert(rd.push(Seq::<char>::empty())[0] == rd[0]);
                assert(split_commas(s.push(c)) =~= split_commas(s).push(Seq::<char>::empty()));
            }
        } else {
            let rd2 = rd.update(rd.len() - 1, rd.last().push(c));
            if s[0] == ',' {
                assert(split_commas(s.push(c)) =~= seq![Seq::<char>::empty()] + rd2);
                assert(seq![Seq::<char>::empty()] + rd2 =~= split_commas(s).update(
                    split_commas(s).len() - 1,
                    split_commas(s).last().push(c),
                ));
            } else {
                if rd.len() == 1 {
                    assert(rd2[0] == rd[0].push(c));
                    assert(split_commas(s.push(c)) =~= seq![seq![s[0]] + rd2[0]]
                        + rd2.drop_first());
                    assert(split_commas(s) =~= seq![seq![s[0]] + rd[0]]);
                    assert((seq![s[0]] + rd[0]).push(c) =~= seq![s[0]] + rd[0].push(c));
                    assert(split_commas(s.push(c)) =~= split_commas(s).update(
                        split_commas(s).len() - 1,
                        split_commas(s).last().push(c),
                    ));
                } else {
                    assert(rd2[0] == rd[0]);
                    assert(rd2.drop_first() =~= rd.drop_first().update(
                        rd.len() - 2,
                        rd.last().push(c),
                    ));
                    assert(split_commas(s.push(c)) =~= seq![seq![s[0]] + rd[0]]
                        + rd2.drop_first());
                    assert(split_commas(s) =~= seq![seq![s[0]] + rd[0]] + rd.drop_first());
                    assert(split_commas(s).last() == rd.last());
                    assert(split_commas(s.push(c)) =~= split_commas(s).update(
                        split_commas(s).len() - 1,
                        split_commas(s).last().push(c),
                    ));
                }
            }
        }
    }
}

fn is_space_exec(c: char) -> (r: bool)
    ensures
        r == is_space(c),
{
    c == ' ' || c == '\t' || c == '\n' || c == '\r'
}

/// Strips the surrounding whitespace.
fn trim_chars(s: &Vec<char>) -> (r: Vec<char>)
    ensures
        r@ == trimmed(s@),
{
    let len = s.len();
    let mut a: usize = 0;
    proof {
        assert(s@.skip(0) =~= s@);
    }
    while a < len && is_space_exec(s[a])
        invariant
            a <= len,
            len == s@.len(),
            trim_front(s@) == trim_front(s@.skip(a as int)),
        decreases len - a,
    {
        proof {
            assert(s@.skip(a as int)[0] == s@[a as int]);
            assert(s@.skip(a as int).drop_first() =~= s@.skip(a + 1));
        }
        a = a + 1;
    }
    let ghost t = s@.skip(a as int);
    proof {
        if a < len {
            assert(t[0] == s@[a as int]);
        }
        assert(trim_front(s@) == t);
    }
    let mut b: usize = len;
    proof {
        assert(t.take(len - a) =~= t);
    }
    while b > a && is_space_exec(s[b - 1])
        invariant
            a <= b <= len,
            len == s@.len(),
            t == s@.skip(a as int),
            trim_back(t) == trim_back(t.take(b - a)),
        decreases b,
    {
        proof {
            assert(t.take(b - a).last() == s@[b - 1]);
            assert(t.take(b - a).drop_last() =~= t.take(b - a - 1));
        }
        b = b - 1;
    }
    proof {
        if b > a {
            assert(t.take(b - a).last() == s@[b - 1]);
        } else {
            assert(t.take(0) =~= Seq::<char>::empty());
        }
        assert(trim_back(t) == t.take(b - a));
    }
    let mut r: Vec<char> = Vec::new();
    let mut i = a;
    while i < b
        invariant
            a <= i <= b <= len,
            len == s@.len(),
            r@ == s@.subrange(a as int, i as int),
        decreases b - i,
    {
        r.push(s[i]);
        i = i + 1;
        proof {
            assert(r@ =~= s@.subrange(a as int, i as int));
        }
    }
    proof {
        assert(r@ =~= t.take(b - a));
    }
    r
}

/// Splits a comma-separated tag input into its tags, each trimmed of
/// surrounding whitespace; empty and repeated tags are kept as given.
pub fn parse_tags(input: &str) -> (r: Vec<String>)
    ensures
        r.deep_view() == tags_of_csv(input@),
{
    let v = crate::chars::str_to_chars(input);
    let mut out: Vec<String> = Vec::new();
    let mut cur: Vec<char> = Vec::new();
    let ghost mut raw: Seq<Seq<char>> = Seq::empty();
    proof {
        assert(v@.take(0) =~= Seq::<char>::empty());
        assert(split_commas(v@.take(0)) =~= raw.push(cur@));
        assert(out.deep_view() =~= raw.map_values(|t: Seq<char>| trimmed(t)));
    }
    let mut i: usize = 0;
    while i < v.len()
        invariant
            i <= v@.len(),
            v@ == input@,
            split_commas(v@.take(i as int)) == raw.push(cur@),
            out.deep_view() == raw.map_values(|t: Seq<char>| trimmed(t)),
            out@.len() == raw.len(),
        decreases v@.len() - i,
    {
        let c = v[i];
        proof {
            assert(v@.take(i + 1) =~= v@.take(i as int).push(c));
            lemma_split_snoc(v@.take(i as int), c);
        }
        if c == ',' {
            let ghost dout = out.deep_view();
            let tc = trim_chars(&cur);
            let ts = crate::chars::chars_to_string(&tc);
            out.push(ts);
            proof {
                raw = raw.push(cur@);
                assert(out.deep_view() =~= dout.push(trimmed(cur@)));
                assert(out.deep_view() =~= raw.map_values(|t: Seq<char>| trimmed(t)));
            }
            cur = Vec::new();
            proof {
                assert(split_commas(v@.take(i + 1)) =~= raw.push(cur@));
            }
        } else {
            proof {
                let sp = split_commas(v@.take(i as int));
                assert(sp.len() == raw.len() + 1);
                assert(sp.last() == cur@);
                assert(split_commas(v@.take(i + 1)) =~= raw.push(cur@.push(c)));
            }
            cur.push(c);
        }
        i = i + 1;
    }
    let ghost dout = out.deep_view();
    let tc = trim_chars(&cur);
    let ts = crate::chars::chars_to_string(&tc);
    out.push(ts);
    proof {
        assert(v@.take(v@.len() as int) =~= v@);
        assert(out.deep_view() =~= dout.push(trimmed(cur@)));
        assert(tags_of_csv(input@) =~= raw.push(cur@).map_values(|t: Seq<char>| trimmed(t)));
        assert(raw.push(cur@).map_values(|t: Seq<char>| trimmed(t)) =~= raw.map_values(
            |t: Seq<char>| trimmed(t),
        ).push(trimmed(cur@)));
        assert(out.deep_view() =~= tags_of_csv(input@));
    }
    out
}

/// How many characters the first line of `s` holds.
pub open spec fn line_prefix_len(s: Seq<char>) -> int
    decreases s.len(),
{
    if s.len() == 0 {
        0
    } else if s[0] == '\n' {
        0
    } else {
        1 + line_prefix_len(s.drop_first())
    }
}

/// The first line of `s`, without its line break and without a carriage
/// return left at its end.
pub open spec fn first_line(s: Seq<char>) -> Seq<char> {
    let fl = s.take(line_prefix_len(s));
    if fl.len() > 0 && fl.last() == '\r' {
        fl.drop_last()
    } else {
        fl
    }
}

/// The single-line excerpt shown in a listing: the first line, cut to
/// fifty characters.
pub open spec fn excerpt_rep(s: Seq<char>) -> Seq<char> {
    let fl = first_line(s);
    if fl.len() <= 50 {
        fl
    } else {
        fl.take(50)
    }
}

proof fn lemma_line_prefix(s: Seq<char>, e: int)
    requires
        0 <= e <= s.len(),
        forall|j: int| 0 <= j < e ==> s[j] != '\n',
        e == s.len() || s[e] == '\n',
    ensures
        line_prefix_len(s) == e,
    decreases s.len(),
{
    if s.len() > 0 && e > 0 {
        assert(s[0] != '\n');
        lemma_line_prefix(s.drop_first(), e - 1);
    }
}

/// The single-line excerpt of a note's content.
pub fn excerpt(content: &str) -> (r: String)
    ensures
        r@ == excerpt_rep(content@),
{
    let v = crate::chars::str_to_chars(content);
    let len = v.len();
    let mut e: usize = 0;
    while e < len && v[e] != '\n'
        invariant
            e <= len,
            len == v@.len(),
            v@ == content@,
            forall|j: int| 0 <= j < e ==> v@[j] != '\n',
        decreases len - e,
    {
        e = e + 1;
    }
    proof {
        lemma_line_prefix(v@, e as int);
    }
    let stop = if e > 0 && v[e - 1] == '\r' {
        e - 1
    } else {
        e
    };
    proof {
        if e > 0 {
            assert(v@.take(e as int).last() == v@[e - 1]);
        }
        assert(first_line(v@) == v@.take(stop as int)) by {
            if e > 0 && v@[e - 1] == '\r' {
                assert(v@.take(e as int).drop_last() =~= v@.take(e - 1));
            }
        }
    }
    let cut = if stop > 50 {
        50
    } else {
        stop
    };
    let mut out: Vec<char> = Vec::new();
    let mut i: usize = 0;
    while i < cut
        invariant
            i <= cut <= len,
            len == v@.len(),
            out@ == v@.take(i as int),
        decreases cut - i,
    {
        out.push(v[i]);
        i = i + 1;
        proof {
            assert(out@ =~= v@.take(i as int));
        }
    }
    proof {
        assert(out@ =~= excerpt_rep(content@)) by {
            if stop > 50 {
                assert(v@.take(stop as int).take(50) =~= v@.take(50));
            }
        }
    }
    crate::chars::chars_to_string(&out)
}

} // verus!
