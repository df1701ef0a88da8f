use vstd::prelude::*;

verus! {

pub open spec fn hex_digit(d: int) -> char {
    if d == 0 {
        '0'
    } else if d == 1 {
        '1'
    } else if d == 2 {
        '2'
    } else if d == 3 {
        '3'
    } else if d == 4 {
        '4'
    } else if d == 5 {
        '5'
    } else if d == 6 {
        '6'
    } else if d == 7 {
        '7'
    } else if d == 8 {
        '8'
    } else if d == 9 {
        '9'
    } else if d == 10 {
        'a'
    } else if d == 11 {
        'b'
    } else if d == 12 {
        'c'
    } else if d == 13 {
        'd'
    } else if d == 14 {
        'e'
    } else {
        'f'
    }
}

/// The hexadecimal representation of `v`, exactly `w` digits wide, most
/// significant digit first, zero-padded.
pub open spec fn hex_fixed(v: nat, w: nat) -> Seq<char>
    decreases w,
{
    if w == 0 {
        Seq::empty()
    } else {
        hex_fixed(v / 16, (w - 1) as nat).push(hex_digit((v % 16) as int))
    }
}

pub open spec fn pow16(k: nat) -> nat
    decreases k,
{
    if k == 0 {
        1
    } else {
        16 * pow16((k - 1) as nat)
    }
}

pub proof fn lemma_pow16_32()
    ensures
        pow16(32) == 0x100000000000000000000000000000000,
{
    reveal_with_fuel(pow16, 33);
}

pub proof fn lemma_hex_fixed_len(v: nat, w: nat)
    ensures
        hex_fixed(v, w).len() == w,
    decreases w,
{
    if w > 0 {
        lemma_hex_fixed_len(v / 16, (w - 1) as nat);
    }
}

pub proof fn lemma_hex_fixed_injective(a: nat, b: nat, w: nat)
    requires
        a < pow16(w),
        b < pow16(w),
        hex_fixed(a, w) == hex_fixed(b, w),
    ensures
        a == b,
    decreases w,
{
    if w == 0 {
    } else {
        lemma_hex_fixed_len(a / 16, (w - 1) as nat);
        lemma_hex_fixed_len(b / 16, (w - 1) as nat);
        assert(hex_fixed(a, w).last() == hex_digit((a % 16) as int));
        assert(hex_fixed(b, w).last() == hex_digit((b % 16) as int));
        assert(a % 16 == b % 16);
        assert(hex_fixed(a, w).drop_last() =~= hex_fixed(a / 16, (w - 1) as nat));
        assert(hex_fixed(b, w).drop_last() =~= hex_fixed(b / 16, (w - 1) as nat));
        assert(a / 16 < pow16((w - 1) as nat)) by (nonlinear_arith)
            requires
                a < 16 * pow16((w - 1) as nat),
        ;
        assert(b / 16 < pow16((w - 1) as nat)) by (nonlinear_arith)
            requires
                b < 16 * pow16((w - 1) as nat),
        ;
        lemma_hex_fixed_injective(a / 16, b / 16, (w - 1) as nat);
        assert(a == 16 * (a / 16) + a % 16);
        assert(b == 16 * (b / 16) + b % 16);
    }
}

/// The textual form of an identifier: thirty-two lowercase hexadecimal
/// digits in five hyphen-separated groups of 8, 4, 4, 4 and 12.
pub open spec fn id_rep(v: u128) -> Seq<char> {
    let h = hex_fixed(v as nat, 32);
    h.subrange(0, 8) + seq!['-'] + h.subrange(8, 12) + seq!['-'] + h.subrange(12, 16) + seq!['-']
        + h.subrange(16, 20) + seq!['-'] + h.subrange(20, 32)
}

pub proof fn lemma_id_rep_len(v: u128)
    ensures
        id_rep(v).len() == 36,
{
    lemma_hex_fixed_len(v as nat, 32);
}

pub open spec fn is_hyphen_pos(q: int) -> bool {
    q == 8 || q == 13 || q == 18 || q == 23
}

pub open spec fn hyphens_before(q: int) -> int {
    (if q > 8 {
        1int
    } else {
        0int
    }) + (if q > 13 {
        1int
    } else {
        0int
    }) + (if q > 18 {
        1int
    } else {
        0int
    }) + (if q > 23 {
        1int
    } else {
        0int
    })
}

pub proof fn lemma_id_rep_index(v: u128, q: int)
    requires
        0 <= q < 36,
    ensures
        id_rep(v)[q] == if is_hyphen_pos(q) {
            '-'
        } else {
            hex_fixed(v as nat, 32)[q - hyphens_before(q)]
        },
{
    lemma_hex_fixed_len(v as nat, 32);
}

fn hex_to_val(c: char) -> (r: Option<u64>)
    ensures
        r matches Some(d) ==> d < 16 && c == hex_digit(d as int),
        r is None ==> forall|d: int| 0 <= d < 16 ==> c != hex_digit(d),
{
    match c {
        '0' => Some(0),
        '1' => Some(1),
        '2' => Some(2),
        '3' => Some(3),
        '4' => Some(4),
        '5' => Some(5),
        '6' => Some(6),
        '7' => Some(7),
        '8' => Some(8),
        '9' => Some(9),
        'a' => Some(10),
        'b' => Some(11),
        'c' => Some(12),
        'd' => Some(13),
        'e' => Some(14),
        'f' => Some(15),
        _ => None,
    }
}

fn hex_of_val(d: u64) -> (c: char)
    requires
        d < 16,
    ensures
        c == hex_digit(d as int),
{
    if d == 0 {
        '0'
    } else if d == 1 {
        '1'
    } else if d == 2 {
        '2'
    } else if d == 3 {
        '3'
    } else if d == 4 {
        '4'
    } else if d == 5 {
        '5'
    } else if d == 6 {
        '6'
    } else if d == 7 {
        '7'
    } else if d == 8 {
        '8'
    } else if d == 9 {
        '9'
    } else if d == 10 {
        'a'
    } else if d == 11 {
        'b'
    } else if d == 12 {
        'c'
    } else if d == 13 {
        'd'
    } else if d == 14 {
        'e'
    } else {
        'f'
    }
}

/// Renders an identifier in its hyphenated textual form.
pub fn render_id(v: u128) -> (r: Vec<char>)
    ensures
        r@ == id_rep(v),
{
    // Least significant digit first.
    let mut tmp: Vec<char> = Vec::new();
    let mut cur: u128 = v;
    let mut k: usize = 0;
    proof {
        lemma_hex_fixed_len(v as nat, 32);
    }
    while k < 32
        invariant
            k <= 32,
            hex_fixed(v as nat, 32) =~= hex_fixed(cur as nat, (32 - k) as nat) + tmp@.reverse(),
            tmp@.len() == k,
        decreases 32 - k,
    {
        let d: u64 = (cur % 16) as u64;
        let c = hex_of_val(d);
        proof {
            assert(hex_fixed(cur as nat, (32 - k) as nat) == hex_fixed(
                (cur as nat) / 16,
                (32 - k - 1) as nat,
            ).push(c));
            assert(tmp@.push(c).reverse() =~= seq![c] + tmp@.reverse());
            assert(hex_fixed((cur as nat) / 16, (32 - k - 1) as nat).push(c) + tmp@.reverse()
                =~= hex_fixed((cur as nat) / 16, (32 - k - 1) as nat) + (seq![c]
                + tmp@.reverse()));
        }
        tmp.push(c);
        cur = cur / 16;
        k = k + 1;
    }
    let ghost h = hex_fixed(v as nat, 32);
    proof {
        assert(h =~= tmp@.reverse());
        assert(tmp@.len() == 32);
    }
    // Most significant digit first.
    let mut msb: Vec<char> = Vec::new();
    let mut j: usize = 0;
    while j < 32
        invariant
            j <= 32,
            tmp@.len() == 32,
            h == tmp@.reverse(),
            msb@ == h.take(j as int),
        decreases 32 - j,
    {
        msb.push(tmp[31 - j]);
        j = j + 1;
        proof {
            assert(msb@ =~= h.take(j as int));
        }
    }
    proof {
        assert(msb@ =~= h);
        lemma_hex_fixed_len(v as nat, 32);
    }
    let mut r: Vec<char> = Vec::new();
    push_range(&mut r, &msb, 0, 8);
    r.push('-');
    push_range(&mut r, &msb, 8, 12);
    r.push('-');
    push_range(&mut r, &msb, 12, 16);
    r.push('-');
    push_range(&mut r, &msb, 16, 20);
    r.push('-');
    push_range(&mut r, &msb, 20, 32);
    proof {
        assert(r@ =~= id_rep(v));
    }
    r
}

fn push_range(out: &mut Vec<char>, src: &Vec<char>, a: usize, b: usize)
    requires
        a <= b <= src@.len(),
    ensures
        final(out)@ == old(out)@ + src@.subrange(a as int, b as int),
{
    let mut i = a;
    while i < b
        invariant
            a <= i <= b <= src@.len(),
            out@ == old(out)@ + src@.subrange(a as int, i as int),
        decreases b - i,
    {
        out.push(src[i]);
        i = i + 1;
        proof {
            assert(out@ =~= old(out)@ + src@.subrange(a as int, i as int));
        }
    }
}

/// Whether the textual form of the identifier `x` stands at `from` in `s`.
pub open spec fn id_at(s: Seq<char>, from: int, x: u128) -> bool {
    0 <= from && from + 36 <= s.len() && s.subrange(from, from + 36) == id_rep(x)
}

/// Parses a hyphenated identifier at `from`: exactly thirty-six characters,
/// lowercase hexadecimal digits with hyphens at the four fixed places.
pub fn parse_id(v: &Vec<char>, from: usize) -> (r: Option<(u128, usize)>)
    requires
        from <= v@.len(),
    ensures
        r matches Some(p) ==> p.1 == from + 36 && from + 36 <= v@.len() && v@.subrange(
            from as int,
            from + 36,
        ) == id_rep(p.0),
        forall|x: u128| #[trigger] id_at(v@, from as int, x) ==> (r matches Some(p) && p.0 == x
            && p.1 == from + 36),
{
    let len = v.len();
    if len < 36 || from > len - 36 {
        return None;
    }
    let mut acc: u128 = 0;
    let mut q: usize = 0;
    let ghost mut digs: Seq<char> = Seq::empty();
    while q < 36
        invariant
            q <= 36,
            len == v@.len(),
            from + 36 <= len,
            digs.len() == q - hyphens_before(q as int),
            0 <= q - hyphens_before(q as int) <= q,
            acc < pow16(digs.len()),
            hex_fixed(acc as nat, digs.len()) == digs,
            forall|p: int|
                0 <= p < q && is_hyphen_pos(p) ==> v@[from + p] == '-',
            forall|p: int|
                0 <= p < q && !is_hyphen_pos(p) ==> v@[from + p] == digs[p - hyphens_before(p)],
        decreases 36 - q,
    {
        let c = v[from + q];
        if q == 8 || q == 13 || q == 18 || q == 23 {
            if c != '-' {
                proof {
                    assert forall|x: u128| !id_at(v@, from as int, x) by {
                        if id_at(v@, from as int, x) {
                            lemma_id_rep_index(x, q as int);
                            assert(v@.subrange(from as int, from + 36)[q as int] == id_rep(
                                x,
                            )[q as int]);
                            assert(v@[from + q] == '-');
                        }
                    }
                }
                return None;
            }
        } else {
            match hex_to_val(c) {
                Some(d) => {
                    proof {
                        let k = digs.len();
                        assert(k <= 31);
                        lemma_pow16_mono((k + 1) as nat, 32);
                        lemma_pow16_32();
                        assert((acc as nat) * 16 + (d as nat) < 16 * pow16(k)) by (nonlinear_arith)
                            requires
                                (acc as nat) < pow16(k),
                                (d as nat) < 16,
                        ;
                        assert(16 * pow16(k) == pow16((k + 1) as nat));
                    }
                    let newacc: u128 = acc * 16 + (d as u128);
                    proof {
                        let na = newacc as nat;
                        let k = digs.len();
                        assert(na / 16 == acc as nat && na % 16 == d as nat) by (nonlinear_arith)
                            requires
                                na == (acc as nat) * 16 + (d as nat),
                                (d as nat) < 16,
                        ;
                        assert(hex_fixed(na, (k + 1) as nat) == hex_fixed(acc as nat, k).push(
                            hex_digit(d as int),
                        ));
                        assert(hex_fixed(na, (k + 1) as nat) =~= digs.push(hex_digit(d as int)));
                    }
                    acc = newacc;
                    proof {
                        digs = digs.push(hex_digit(d as int));
                    }
                },
                None => {
                    proof {
                        assert forall|x: u128| !id_at(v@, from as int, x) by {
                            if id_at(v@, from as int, x) {
                                lemma_id_rep_index(x, q as int);
                                lemma_hex_fixed_len(x as nat, 32);
                                assert(v@.subrange(from as int, from + 36)[q as int] == id_rep(
                                    x,
                                )[q as int]);
                                let hd = hex_fixed(x as nat, 32)[q - hyphens_before(q as int)];
                                lemma_hex_fixed_all_digits(x as nat, 32);
                                assert(c == hd);
                            }
                        }
                    }
                    return None;
                },
            }
        }
        q = q + 1;
    }
    proof {
        assert(digs.len() == 32);
        lemma_pow16_32();
        assert(v@.subrange(from as int, from + 36) =~= id_rep(acc as u128)) by {
            lemma_hex_fixed_len(acc as nat, 32);
            assert forall|p: int| 0 <= p < 36 implies #[trigger] v@.subrange(
                from as int,
                from + 36,
            )[p] == id_rep(acc as u128)[p] by {
                lemma_id_rep_index(acc as u128, p);
            }
        }
        assert forall|x: u128| #[trigger] id_at(v@, from as int, x) implies x == acc by {
            assert(id_rep(x) == id_rep(acc as u128));
            lemma_hex_fixed_len(x as nat, 32);
            lemma_hex_fixed_len(acc as nat, 32);
            assert(hex_fixed(x as nat, 32) =~= hex_fixed(acc as nat, 32)) by {
                assert forall|k: int| 0 <= k < 32 implies hex_fixed(x as nat, 32)[k] == hex_fixed(
                    acc as nat,
                    32,
                )[k] by {
                    let p = k + hyphens_of_digit(k);
                    lemma_id_rep_index(x, p);
                    lemma_id_rep_index(acc as u128, p);
                }
            }
            lemma_hex_fixed_injective(x as nat, acc as nat, 32);
        }
    }
    Some((acc, from + 36))
}

/// The place in the hyphenated form where the `k`-th digit stands.
pub open spec fn hyphens_of_digit(k: int) -> int {
    (if k >= 8 {
        1int
    } else {
        0int
    }) + (if k >= 12 {
        1int
    } else {
        0int
    }) + (if k >= 16 {
        1int
    } else {
        0int
    }) + (if k >= 20 {
        1int
    } else {
        0int
    })
}

pub proof fn lemma_hex_fixed_all_digits(v: nat, w: nat)
    ensures
        forall|i: int|
            0 <= i < hex_fixed(v, w).len() ==> exists|d: int|
                0 <= d < 16 && #[trigger] hex_fixed(v, w)[i] == hex_digit(d),
    decreases w,
{
    if w > 0 {
        lemma_hex_fixed_all_digits(v / 16, (w - 1) as nat);
        lemma_hex_fixed_len(v / 16, (w - 1) as nat);
        assert forall|i: int| 0 <= i < hex_fixed(v, w).len() implies exists|d: int|
            0 <= d < 16 && #[trigger] hex_fixed(v, w)[i] == hex_digit(d) by {
            if i < w - 1 {
                assert(hex_fixed(v, w)[i] == hex_fixed(v / 16, (w - 1) as nat)[i]);
            } else {
                assert(hex_fixed(v, w)[i] == hex_digit((v % 16) as int));
                assert(0 <= (v % 16) && (v % 16) < 16);
            }
        }
    }
}

pub proof fn lemma_pow16_mono(a: nat, b: nat)
    requires
        a <= b,
    ensures
        pow16(a) <= pow16(b),
    decreases b,
{
    if a < b {
        lemma_pow16_mono(a, (b - 1) as nat);
        assert(pow16(b) == 16 * pow16((b - 1) as nat));
    }
}


pub proof fn lemma_id_rep_injective(a: u128, b: u128)
    requires
        id_rep(a) == id_rep(b),
    ensures
        a == b,
{
    lemma_hex_fixed_len(a as nat, 32);
    lemma_hex_fixed_len(b as nat, 32);
    assert(hex_fixed(a as nat, 32) =~= hex_fixed(b as nat, 32)) by {
        assert forall|k: int| 0 <= k < 32 implies hex_fixed(a as nat, 32)[k] == hex_fixed(
            b as nat,
            32,
        )[k] by {
            let p = k + hyphens_of_digit(k);
            lemma_id_rep_index(a, p);
            lemma_id_rep_index(b, p);
        }
    }
    lemma_pow16_32();
    lemma_hex_fixed_injective(a as nat, b as nat, 32);
}

} // verus!
