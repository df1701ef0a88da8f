use vstd::prelude::*;
use crate::chars::append_chars;

verus! {

pub open spec fn digit_char(d: int) -> char {
    if d == 0 {
        '0'
    } else if d == 1 {
        '1'
    } else if d == 2 {
        '2'
    } else if d == 3 {
        '3'
    } else if d == 4 {
        '4'
    } else if d == 5 {
        '5'
    } else if d == 6 {
        '6'
    } else if d == 7 {
        '7'
    } else if d == 8 {
        '8'
    } else {
        '9'
    }
}

pub open spec fn is_digit(c: char) -> bool {
    c == '0' || c == '1' || c == '2' || c == '3' || c == '4' || c == '5' || c == '6' || c == '7'
        || c == '8' || c == '9'
}

/// The decimal representation of `n`, most significant digit first, with no
/// leading zero except for `n == 0` itself.
pub open spec fn dec_rep(n: nat) -> Seq<char>
    decreases n,
{
    if n < 10 {
        seq![digit_char(n as int)]
    } else {
        dec_rep(n / 10).push(digit_char((n % 10) as int))
    }
}

/// The decimal representation of a signed number: a minus sign before the
/// representation of the magnitude when the number is negative.
pub open spec fn int_rep(t: int) -> Seq<char> {
    if t >= 0 {
        dec_rep(t as nat)
    } else {
        seq!['-'] + dec_rep((-t) as nat)
    }
}

pub open spec fn pow10(k: nat) -> nat
    decreases k,
{
    if k == 0 {
        1
    } else {
        10 * pow10((k - 1) as nat)
    }
}

pub proof fn lemma_pow10_19()
    ensures
        pow10(19) == 10000000000000000000,
{
    reveal_with_fuel(pow10, 20);
}

pub proof fn lemma_dec_rep_digits(n: nat)
    ensures
        dec_rep(n).len() >= 1,
        forall|i: int| 0 <= i < dec_rep(n).len() ==> is_digit(#[trigger] dec_rep(n)[i]),
    decreases n,
{
    if n >= 10 {
        lemma_dec_rep_digits(n / 10);
    }
}

pub proof fn lemma_dec_rep_len(n: nat, k: nat)
    requires
        n < pow10(k),
        k >= 1,
    ensures
        dec_rep(n).len() <= k,
    decreases k,
{
    if n < 10 {
    } else {
        assert(k >= 2) by {
            if k == 1 {
                assert(pow10(1) == 10) by {
                    reveal_with_fuel(pow10, 2);
                }
            }
        }
        assert(n / 10 < pow10((k - 1) as nat)) by {
            assert(pow10(k) == 10 * pow10((k - 1) as nat));
            assert(n < 10 * pow10((k - 1) as nat));
            assert(n / 10 < pow10((k - 1) as nat)) by (nonlinear_arith)
                requires
                    n < 10 * pow10((k - 1) as nat),
            ;
        }
        lemma_dec_rep_len(n / 10, (k - 1) as nat);
    }
}

pub proof fn lemma_dec_rep_first(n: nat)
    ensures
        dec_rep(n)[0] == '0' <==> n == 0,
    decreases n,
{
    if n >= 10 {
        lemma_dec_rep_first(n / 10);
        assert(dec_rep(n)[0] == dec_rep(n / 10)[0]) by {
            lemma_dec_rep_digits(n / 10);
        }
    }
}

pub proof fn lemma_dec_rep_injective(a: nat, b: nat)
    requires
        dec_rep(a) == dec_rep(b),
    ensures
        a == b,
    decreases a,
{
    lemma_dec_rep_digits(a);
    lemma_dec_rep_digits(b);
    if a < 10 && b < 10 {
        assert(dec_rep(a)[0] == digit_char(a as int));
        assert(dec_rep(b)[0] == digit_char(b as int));
    } else if a < 10 {
        assert(dec_rep(b).len() >= 2);
        assert(dec_rep(a).len() == 1);
    } else if b < 10 {
        assert(dec_rep(a).len() >= 2);
        assert(dec_rep(b).len() == 1);
    } else {
        let la = dec_rep(a).len();
        assert(dec_rep(a).last() == digit_char((a % 10) as int));
        assert(dec_rep(b).last() == digit_char((b % 10) as int));
        assert(a % 10 == b % 10);
        assert(dec_rep(a).drop_last() =~= dec_rep(a / 10));
        assert(dec_rep(b).drop_last() =~= dec_rep(b / 10));
        lemma_dec_rep_injective(a / 10, b / 10);
        assert(a == 10 * (a / 10) + a % 10);
        assert(b == 10 * (b / 10) + b % 10);
    }
}

/// Renders `n` in decimal.
pub fn render_u64(n: u64) -> (r: Vec<char>)
    ensures
        r@ == dec_rep(n as nat),
{
    let mut tmp: Vec<char> = Vec::new();
    let mut cur: u64 = n;
    loop
        invariant_except_break
            cur == 0 ==> n == 0 && tmp@.len() == 0,
            cur > 0 ==> dec_rep(n as nat) == dec_rep(cur as nat) + tmp@.reverse(),
        ensures
            dec_rep(n as nat) == tmp@.reverse(),
        decreases cur,
    {
        let d: u64 = cur % 10;
        let next: u64 = cur / 10;
        let c = digit_to_char(d);
        proof {
            assert(tmp@.push(c).reverse() =~= seq![c] + tmp@.reverse());
            if cur > 0 {
                if next > 0 {
                    assert(dec_rep(cur as nat) == dec_rep((cur as nat) / 10).push(
                        digit_char(((cur as nat) % 10) as int),
                    ));
                    assert(dec_rep((cur as nat) / 10).push(c) + tmp@.reverse() =~= dec_rep(
                        (cur as nat) / 10,
                    ) + (seq![c] + tmp@.reverse()));
                    assert(dec_rep(n as nat) =~= dec_rep(next as nat) + tmp@.push(c).reverse());
                } else {
                    assert(dec_rep(cur as nat) =~= seq![c]);
                    assert(dec_rep(n as nat) =~= tmp@.push(c).reverse());
                }
            } else {
                assert(n == 0);
                assert(dec_rep(0nat) =~= seq!['0']);
                assert(c == '0');
                assert(dec_rep(n as nat) =~= tmp@.push(c).reverse());
            }
        }
        tmp.push(c);
        cur = next;
        if cur == 0 {
            break ;
        }
    }
    let mut r: Vec<char> = Vec::new();
    let ln = tmp.len();
    let mut j: usize = 0;
    while j < ln
        invariant
            ln == tmp@.len(),
            j <= ln,
            r@ == tmp@.reverse().take(j as int),
        decreases ln - j,
    {
        r.push(tmp[ln - 1 - j]);
        j = j + 1;
        proof {
            assert(r@ =~= tmp@.reverse().take(j as int));
        }
    }
    proof {
        assert(r@ =~= tmp@.reverse());
    }
    r
}

/// Renders a signed number in decimal, with a leading minus when negative.
pub fn render_i64(t: i64) -> (r: Vec<char>)
    ensures
        r@ == int_rep(t as int),
{
    if t >= 0 {
        render_u64(t as u64)
    } else {
        let mag: u64 = if t == i64::MIN {
            9223372036854775808u64
        } else {
            (-t) as u64
        };
        let mut r: Vec<char> = Vec::new();
        r.push('-');
        let ds = render_u64(mag);
        append_chars(&mut r, &ds);
        proof {
            assert(r@ =~= seq!['-'] + dec_rep(mag as nat));
        }
        r
    }
}

pub fn digit_to_char(d: u64) -> (c: char)
    requires
        d < 10,
    ensures
        c == digit_char(d as int),
{
    if d == 0 {
        '0'
    } else if d == 1 {
        '1'
    } else if d == 2 {
        '2'
    } else if d == 3 {
        '3'
    } else if d == 4 {
        '4'
    } else if d == 5 {
        '5'
    } else if d == 6 {
        '6'
    } else if d == 7 {
        '7'
    } else if d == 8 {
        '8'
    } else {
        '9'
    }
}

pub fn char_to_digit(c: char) -> (r: Option<u64>)
    ensures
        r matches Some(d) ==> d < 10 && c == digit_char(d as int),
        r is None ==> !is_digit(c),
        is_digit(c) ==> r is Some,
{
    match c {
        '0' => Some(0),
        '1' => Some(1),
        '2' => Some(2),
        '3' => Some(3),
        '4' => Some(4),
        '5' => Some(5),
        '6' => Some(6),
        '7' => Some(7),
        '8' => Some(8),
        '9' => Some(9),
        _ => None,
    }
}

fn is_digit_exec(c: char) -> (r: bool)
    ensures
        r == is_digit(c),
{
    c == '0' || c == '1' || c == '2' || c == '3' || c == '4' || c == '5' || c == '6' || c == '7'
        || c == '8' || c == '9'
}

/// Whether a representation of the signed number `t`, followed by a character
/// that is not a digit (or by the end of the text), stands at `from` in `s`.
pub open spec fn int_at(s: Seq<char>, from: int, t: i64) -> bool {
    &&& 0 <= from
    &&& from + int_rep(t as int).len() <= s.len()
    &&& s.subrange(from, from + int_rep(t as int).len()) == int_rep(t as int)
    &&& (from + int_rep(t as int).len() == s.len() || !is_digit(
        s[from + int_rep(t as int).len()],
    ))
}

/// Parses a signed decimal number at `from`: an optional minus sign and a
/// maximal run of digits with no leading zero, within the range of the
/// signed sixty-four-bit integers.
pub fn parse_int(v: &Vec<char>, from: usize) -> (r: Option<(i64, usize)>)
    requires
        from <= v@.len(),
    ensures
        r matches Some(p) ==> from <= p.1 <= v@.len() && v@.subrange(from as int, p.1 as int)
            == int_rep(p.0 as int),
        forall|t: i64| #[trigger] int_at(v@, from as int, t) ==> (r matches Some(p) && p.0 == t
            && p.1 == from + int_rep(t as int).len()),
{
    let len = v.len();
    let mut neg = false;
    let mut start = from;
    if from < len && v[from] == '-' {
        neg = true;
        start = from + 1;
    }
    proof {
        assert(neg ==> from < len && v@[from as int] == '-' && start == from + 1);
        assert(!neg ==> start == from && (from == len || v@[from as int] != '-'));
    }
    let mut end = start;
    while end < len && is_digit_exec(v[end])
        invariant
            start <= end <= len,
            len == v@.len(),
            forall|j: int| start <= j < end ==> is_digit(v@[j]),
        decreases len - end,
    {
        end = end + 1;
    }
    let dlen = end - start;
    proof {
        lemma_pow10_19();
        // For every candidate t, the digit run of its representation is the
        // maximal run found here.
        assert forall|t: i64| #[trigger] int_at(v@, from as int, t) implies (t < 0 <==> neg)
            && end == start + dec_rep(mag_of(t)).len() && dec_rep(mag_of(t)) == v@.subrange(
            start as int,
            start + dec_rep(mag_of(t)).len(),
        ) by {
            let m = mag_of(t);
            let rep = int_rep(t as int);
            let rl = rep.len() as int;
            lemma_dec_rep_digits(m);
            assert(from < len);
            assert(v@.subrange(from as int, from + rl)[0] == v@[from as int]);
            if t < 0 {
                assert(rep[0] == '-');
            } else {
                assert(rep[0] == dec_rep(m)[0]);
                assert(is_digit(rep[0]));
            }
            assert(v@[from as int] == rep[0]);
            assert(!is_digit('-'));
            assert(t < 0 <==> neg);
            let ds = start as int;
            let dl = dec_rep(m).len() as int;
            assert(ds - from + dl == rl);
            assert forall|q: int| 0 <= q < dl implies v@[ds + q] == dec_rep(m)[q] by {
                assert(v@.subrange(from as int, from + rl)[ds - from + q] == v@[ds + q]);
                assert(rep[ds - from + q] == dec_rep(m)[q]);
            }
            assert forall|q: int| 0 <= q < dl implies is_digit(#[trigger] v@[ds + q]) by {
                assert(is_digit(dec_rep(m)[q]));
            }
            assert(ds + dl == v@.len() || !is_digit(v@[ds + dl]));
            if end < ds + dl {
                let q = end - ds;
                assert(v@[ds + q] == dec_rep(m)[q]);
                assert(is_digit(v@[end as int]));
                assert(end < len);
                assert(false);
            }
            if end > ds + dl {
                assert(is_digit(v@[ds + dl]));
                assert(false);
            }
            assert forall|q: int| 0 <= q < dl implies v@.subrange(ds, ds + dl)[q] == dec_rep(
                m,
            )[q] by {
                assert(v@.subrange(ds, ds + dl)[q] == v@[ds + q]);
            }
            assert(dec_rep(m) =~= v@.subrange(ds, ds + dl));
        }
    }
    if dlen == 0 || dlen > 19 {
        proof {
            assert forall|t: i64| !int_at(v@, from as int, t) by {
                if int_at(v@, from as int, t) {
                    let m = mag_of(t);
                    lemma_pow10_19();
                    lemma_dec_rep_digits(m);
                    assert(m < pow10(19));
                    lemma_dec_rep_len(m, 19);
                }
            }
        }
        return None;
    }
    if dlen > 1 && v[start] == '0' {
        proof {
            assert forall|t: i64| !int_at(v@, from as int, t) by {
                if int_at(v@, from as int, t) {
                    let m = mag_of(t);
                    let dl = dec_rep(m).len() as int;
                    lemma_dec_rep_first(m);
                    assert(v@.subrange(start as int, start + dl)[0] == v@[start as int]);
                    assert(dec_rep(m)[0] == v@[start as int]);
                    assert(m == 0);
                    assert(dec_rep(m).len() == 1);
                }
            }
        }
        return None;
    }
    let mut acc: u64 = 0;
    let mut j = start;
    while j < end
        invariant
            start <= j <= end <= len,
            len == v@.len(),
            end - start <= 19,
            forall|q: int| start <= q < end ==> is_digit(v@[q]),
            end - start > 1 ==> v@[start as int] != '0',
            acc < pow10((j - start) as nat),
            j > start ==> dec_rep(acc as nat) == v@.subrange(start as int, j as int),
            j == start ==> acc == 0,
        decreases end - j,
    {
        let d = match char_to_digit(v[j]) {
            Some(d) => d,
            None => {
                proof {
                    assert(false);
                }
                0
            },
        };
        proof {
            lemma_pow10_19();
            assert(acc * 10 + d < 10 * pow10((j - start) as nat)) by (nonlinear_arith)
                requires
                    acc < pow10((j - start) as nat),
                    d < 10,
            ;
            assert(10 * pow10((j - start) as nat) == pow10((j - start + 1) as nat));
            assert(pow10((j - start + 1) as nat) <= pow10(19)) by {
                lemma_pow10_mono((j - start + 1) as nat, 19);
            }
        }
        let newacc: u64 = acc * 10 + d;
        proof {
            let na = newacc as nat;
            assert(v@[j as int] == digit_char(d as int));
            if j == start {
                assert(na == d);
                assert(dec_rep(na) == seq![digit_char(d as int)]);
                assert(v@.subrange(start as int, j + 1)[0] == v@[start as int]);
                assert(dec_rep(na) =~= v@.subrange(start as int, j + 1));
            } else {
                assert(acc > 0) by {
                    if acc == 0 {
                        assert(dec_rep(0nat) =~= seq!['0']);
                        assert(v@.subrange(start as int, j as int).len() == 1);
                        assert(j == start + 1);
                        assert(v@.subrange(start as int, j as int)[0] == v@[start as int]);
                        assert(v@[start as int] == '0');
                        assert(end - start > 1);
                        assert(false);
                    }
                }
                assert(na >= 10);
                assert(na / 10 == acc as nat && na % 10 == d as nat) by (nonlinear_arith)
                    requires
                        na == (acc as nat) * 10 + (d as nat),
                        d < 10,
                ;
                assert(dec_rep(na) == dec_rep(acc as nat).push(digit_char(d as int)));
                assert(v@.subrange(start as int, j + 1) =~= v@.subrange(start as int, j as int).push(
                    v@[j as int],
                ));
                assert(dec_rep(na) =~= v@.subrange(start as int, j + 1));
            }
        }
        acc = newacc;
        j = j + 1;
    }
    // acc now carries the value of the digit run.
    if neg && acc == 0 {
        proof {
            assert forall|t: i64| !int_at(v@, from as int, t) by {
                if int_at(v@, from as int, t) {
                    let m = mag_of(t);
                    assert(t < 0);
                    assert(dec_rep(m) == v@.subrange(start as int, end as int));
                    lemma_dec_rep_injective(m, 0);
                }
            }
        }
        return None;
    }
    let limit: u64 = if neg {
        9223372036854775808u64
    } else {
        9223372036854775807u64
    };
    if acc > limit {
        proof {
            assert forall|t: i64| !int_at(v@, from as int, t) by {
                if int_at(v@, from as int, t) {
                    let m = mag_of(t);
                    assert(dec_rep(m) == v@.subrange(start as int, end as int));
                    lemma_dec_rep_injective(m, acc as nat);
                }
            }
        }
        return None;
    }
    let t: i64 = if neg {
        if acc == 9223372036854775808u64 {
            i64::MIN
        } else {
            -(acc as i64)
        }
    } else {
        acc as i64
    };
    proof {
        assert(mag_of(t) == acc as nat);
        assert(dec_rep(mag_of(t)) == v@.subrange(start as int, end as int));
        if neg {
            assert(int_rep(t as int) == seq!['-'] + dec_rep(mag_of(t)));
            assert(v@.subrange(from as int, end as int) =~= seq!['-'] + v@.subrange(
                start as int,
                end as int,
            )) by {
                assert(v@.subrange(from as int, end as int)[0] == v@[from as int]);
                assert forall|q: int| 0 <= q < end - start implies v@.subrange(
                    from as int,
                    end as int,
                )[1 + q] == v@.subrange(start as int, end as int)[q] by {
                    assert(v@.subrange(from as int, end as int)[1 + q] == v@[start + q]);
                    assert(v@.subrange(start as int, end as int)[q] == v@[start + q]);
                }
            }
        } else {
            assert(v@.subrange(from as int, end as int) == int_rep(t as int));
        }
        assert forall|t2: i64| #[trigger] int_at(v@, from as int, t2) implies t2 == t by {
            let m2 = mag_of(t2);
            assert(dec_rep(m2) == v@.subrange(start as int, end as int));
            lemma_dec_rep_injective(m2, mag_of(t));
            assert((t2 < 0) == neg && (t < 0) == neg);
        }
    }
    Some((t, end))
}

pub open spec fn mag_of(t: i64) -> nat {
    if t >= 0 {
        t as nat
    } else {
        (-(t as int)) as nat
    }
}

pub proof fn lemma_pow10_mono(a: nat, b: nat)
    requires
        a <= b,
    ensures
        pow10(a) <= pow10(b),
    decreases b,
{
    if a < b {
        lemma_pow10_mono(a, (b - 1) as nat);
        assert(pow10(b) == 10 * pow10((b - 1) as nat));
    }
}

} // verus!
