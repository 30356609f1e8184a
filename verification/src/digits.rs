//! Canonical decimal text.
//!
//! Device IDs in endpoint paths and the numeric attributes of the wire payload
//! are written in canonical decimal: no sign, no leading zero (except for the
//! number zero itself). `dec_seq` is the one definition of that text; the
//! renderer and the parser are both proved against it.

use vstd::prelude::*;

verus! {

/// Whether `c` is a decimal digit.
pub open spec fn is_digit_char(c: char) -> bool {
    c == '0' || c == '1' || c == '2' || c == '3' || c == '4' || c == '5' || c == '6' || c == '7'
        || c == '8' || c == '9'
}

/// The digit character for a value below ten.
pub open spec fn digit_char(d: nat) -> char {
    if d == 0 {
        '0'
    } else if d == 1 {
        '1'
    } else if d == 2 {
        '2'
    } else if d == 3 {
        '3'
    } else if d == 4 {
        '4'
    } else if d == 5 {
        '5'
    } else if d == 6 {
        '6'
    } else if d == 7 {
        '7'
    } else if d == 8 {
        '8'
    } else {
        '9'
    }
}

/// The value of a digit character.
pub open spec fn char_digit(c: char) -> nat {
    if c == '0' {
        0
    } else if c == '1' {
        1
    } else if c == '2' {
        2
    } else if c == '3' {
        3
    } else if c == '4' {
        4
    } else if c == '5' {
        5
    } else if c == '6' {
        6
    } else if c == '7' {
        7
    } else if c == '8' {
        8
    } else {
        9
    }
}

/// The canonical decimal digits of `v`, most significant first.
pub open spec fn dec_seq(v: nat) -> Seq<char>
    decreases v,
{
    if v < 10 {
        seq![digit_char(v)]
    } else {
        dec_seq(v / 10).push(digit_char(v % 10))
    }
}

/// The numeric value of a digit string, read left to right.
pub open spec fn seq_val(s: Seq<char>) -> nat
    decreases s.len(),
{
    if s.len() == 0 {
        0
    } else {
        seq_val(s.drop_last()) * 10 + char_digit(s.last())
    }
}

/// Digit strings in canonical form: nonempty, digits only, and no leading
/// zero unless the string is exactly "0".
pub open spec fn canonical_digits(s: Seq<char>) -> bool {
    s.len() >= 1 && (forall|i: int| 0 <= i < s.len() ==> is_digit_char(s[i])) && (s[0] != '0'
        || s.len() == 1)
}

/// `dec_seq(v)` starts at `pos` in `s` and is not followed by another digit:
/// the way a canonical number sits inside a larger canonical text.
pub open spec fn dec_at(s: Seq<char>, pos: int, v: nat) -> bool {
    &&& 0 <= pos
    &&& pos + dec_seq(v).len() <= s.len()
    &&& s.subrange(pos, pos + dec_seq(v).len() as int) == dec_seq(v)
    &&& (pos + dec_seq(v).len() < s.len() ==> !is_digit_char(s[pos + dec_seq(v).len() as int]))
}

/// Round trip between a digit and its character.
pub proof fn lemma_digit_char_inverse(d: nat)
    requires
        d < 10,
    ensures
        is_digit_char(digit_char(d)),
        char_digit(digit_char(d)) == d,
{
}

/// The canonical digits of any value form a canonical digit string whose
/// value is the value itself.
pub proof fn lemma_dec_seq_props(v: nat)
    ensures
        canonical_digits(dec_seq(v)),
        seq_val(dec_seq(v)) == v,
        v >= 1 ==> dec_seq(v)[0] != '0',
        v < 10 ==> dec_seq(v).len() == 1,
    decreases v,
{
    if v < 10 {
        lemma_digit_char_inverse(v);
        assert(dec_seq(v) == seq![digit_char(v)]);
        assert(dec_seq(v).drop_last() =~= Seq::<char>::empty());
        assert(seq_val(Seq::<char>::empty()) == 0);
        assert(seq_val(dec_seq(v)) == char_digit(digit_char(v)));
    } else {
        lemma_dec_seq_props(v / 10);
        lemma_digit_char_inverse(v % 10);
        let p = dec_seq(v / 10);
        let w = p.push(digit_char(v % 10));
        assert(w.drop_last() =~= p);
        assert(w.last() == digit_char(v % 10));
        assert(seq_val(w) == (v / 10) * 10 + v % 10);
        assert((v / 10) * 10 + v % 10 == v) by (nonlinear_arith);
        assert(w[0] == p[0]);
        assert(forall|i: int| 0 <= i < w.len() ==> is_digit_char(w[i])) by {
            assert(forall|i: int| 0 <= i < p.len() ==> is_digit_char(#[trigger] w[i]));
        }
    }
}

/// A nonempty digit string without a leading zero has a positive value.
pub proof fn lemma_seq_val_positive(s: Seq<char>)
    requires
        s.len() >= 1,
        forall|i: int| 0 <= i < s.len() ==> is_digit_char(s[i]),
        s[0] != '0',
    ensures
        seq_val(s) >= 1,
    decreases s.len(),
{
    if s.len() == 1 {
        assert(s.drop_last() =~= Seq::<char>::empty());
        assert(char_digit(s.last()) >= 1);
    } else {
        let p = s.drop_last();
        assert(p[0] == s[0]);
        lemma_seq_val_positive(p);
        assert(seq_val(p) * 10 >= 10) by (nonlinear_arith)
            requires
                seq_val(p) >= 1,
        ;
    }
}

/// A canonical digit string is the canonical rendering of its own value:
/// rendering is a bijection between values and canonical digit strings.
pub proof fn lemma_canonical_digits_round_trip(s: Seq<char>)
    requires
        canonical_digits(s),
    ensures
        dec_seq(seq_val(s)) == s,
    decreases s.len(),
{
    if s.len() == 1 {
        let d = char_digit(s[0]);
        assert(s.drop_last() =~= Seq::<char>::empty());
        assert(seq_val(Seq::<char>::empty()) == 0);
        assert(seq_val(s) == d);
        assert(is_digit_char(s[0]));
        assert(digit_char(d) == s[0]);
        assert(dec_seq(d) =~= s);
    } else {
        let p = s.drop_last();
        assert(p[0] == s[0]);
        assert(forall|i: int| 0 <= i < p.len() ==> is_digit_char(#[trigger] p[i]));
        lemma_seq_val_positive(p);
        lemma_canonical_digits_round_trip(p);
        let d = char_digit(s.last());
        let v = seq_val(s);
        assert(v == seq_val(p) * 10 + d);
        assert(v / 10 == seq_val(p) && v % 10 == d) by (nonlinear_arith)
            requires
                v == seq_val(p) * 10 + d,
                d < 10,
        ;
        assert(seq_val(p) * 10 >= 10) by (nonlinear_arith)
            requires
                seq_val(p) >= 1,
        ;
        assert(is_digit_char(s.last()));
        assert(digit_char(d) == s.last());
        assert(dec_seq(v) == dec_seq(seq_val(p)).push(digit_char(d)));
        assert(p.push(s.last()) =~= s);
    }
}

/// Extending a digit string on the right never lowers its value.
pub proof fn lemma_seq_val_prefix_le(s: Seq<char>, k: int)
    requires
        0 <= k <= s.len(),
    ensures
        seq_val(s.take(k)) <= seq_val(s),
    decreases s.len() - k,
{
    if k < s.len() {
        let t = s.take(k + 1);
        assert(t.drop_last() =~= s.take(k));
        assert(seq_val(t) == seq_val(s.take(k)) * 10 + char_digit(t.last()));
        assert(seq_val(s.take(k)) * 10 >= seq_val(s.take(k))) by (nonlinear_arith);
        lemma_seq_val_prefix_le(s, k + 1);
        assert(s.take(s.len() as int) =~= s);
    } else {
        assert(s.take(k) =~= s);
    }
}

/// The digit string literal for one digit value.
pub fn digit_str(d: u32) -> (r: &'static str)
    requires
        d < 10,
    ensures
        r@ =~= seq![digit_char(d as nat)],
{
    proof {
        reveal_strlit("0");
        reveal_strlit("1");
        reveal_strlit("2");
        reveal_strlit("3");
        reveal_strlit("4");
        reveal_strlit("5");
        reveal_strlit("6");
        reveal_strlit("7");
        reveal_strlit("8");
        reveal_strlit("9");
    }
    match d {
        0 => "0",
        1 => "1",
        2 => "2",
        3 => "3",
        4 => "4",
        5 => "5",
        6 => "6",
        7 => "7",
        8 => "8",
        _ => "9",
    }
}

/// Appends the canonical decimal text of `v` to `out`.
pub fn push_dec_u32(out: &mut String, v: u32)
    ensures
        final(out)@ == old(out)@ + dec_seq(v as nat),
    decreases v,
{
    if v >= 10 {
        push_dec_u32(out, v / 10);
        let d = digit_str(v % 10);
        out.append(d);
        proof {
            assert(dec_seq((v / 10) as nat).push(digit_char((v % 10) as nat)) =~= dec_seq(
                (v / 10) as nat,
            ) + seq![digit_char((v % 10) as nat)]);
        }
    } else {
        let d = digit_str(v);
        out.append(d);
    }
}

/// The value of a digit character, or `None` on any other character.
pub fn digit_of_char(c: char) -> (r: Option<u32>)
    ensures
        r is Some <==> is_digit_char(c),
        r is Some ==> r.unwrap() as nat == char_digit(c),
{
    match c {
        '0' => Some(0),
        '1' => Some(1),
        '2' => Some(2),
        '3' => Some(3),
        '4' => Some(4),
        '5' => Some(5),
        '6' => Some(6),
        '7' => Some(7),
        '8' => Some(8),
        '9' => Some(9),
        _ => None,
    }
}

} // verus!

verus! {

/// Ten to the `w`.
pub open spec fn pow10(w: nat) -> nat
    decreases w,
{
    if w == 0 {
        1
    } else {
        10 * pow10((w - 1) as nat)
    }
}

/// The value `v` written in exactly `w` digits, zero-padded on the left
/// (modulo `pow10(w)`).
pub open spec fn padded(v: nat, w: nat) -> Seq<char>
    decreases w,
{
    if w == 0 {
        Seq::<char>::empty()
    } else {
        padded(v / 10, (w - 1) as nat).push(digit_char(v % 10))
    }
}

/// Fixed-width digit text: its length, digit-ness, and value.
pub proof fn lemma_padded_props(v: nat, w: nat)
    ensures
        padded(v, w).len() == w,
        forall|i: int| 0 <= i < w ==> is_digit_char(#[trigger] padded(v, w)[i]),
        seq_val(padded(v, w)) == v % pow10(w),
    decreases w,
{
    if w == 0 {
        assert(pow10(0) == 1);
        assert(v % 1 == 0) by (nonlinear_arith);
    } else {
        lemma_padded_props(v / 10, (w - 1) as nat);
        lemma_digit_char_inverse(v % 10);
        let p = padded(v / 10, (w - 1) as nat);
        let s = p.push(digit_char(v % 10));
        assert(s.drop_last() =~= p);
        assert(s.last() == digit_char(v % 10));
        assert(seq_val(s) == (v / 10 % pow10((w - 1) as nat)) * 10 + v % 10);
        assert(forall|i: int| 0 <= i < w ==> is_digit_char(#[trigger] s[i])) by {
            assert(forall|i: int| 0 <= i < p.len() ==> is_digit_char(#[trigger] s[i]));
        }
        let q = pow10((w - 1) as nat);
        assert(pow10(w) == 10 * q);
        assert(q >= 1) by {
            lemma_pow10_pos((w - 1) as nat);
        }
        assert((v / 10 % q) * 10 + v % 10 == v % (10 * q)) by (nonlinear_arith)
            requires
                q >= 1,
        ;
    }
}

/// Powers of ten are positive.
pub proof fn lemma_pow10_pos(w: nat)
    ensures
        pow10(w) >= 1,
    decreases w,
{
    if w > 0 {
        lemma_pow10_pos((w - 1) as nat);
    }
}

/// Any `w`-digit text is the fixed-width rendering of its own value.
pub proof fn lemma_padded_round_trip(t: Seq<char>)
    requires
        forall|i: int| 0 <= i < t.len() ==> is_digit_char(t[i]),
    ensures
        padded(seq_val(t), t.len()) == t,
        seq_val(t) < pow10(t.len()),
    decreases t.len(),
{
    if t.len() == 0 {
        assert(padded(0, 0) =~= t);
    } else {
        let p = t.drop_last();
        assert(forall|i: int| 0 <= i < p.len() ==> is_digit_char(#[trigger] p[i]));
        lemma_padded_round_trip(p);
        let d = char_digit(t.last());
        let v = seq_val(t);
        assert(v == seq_val(p) * 10 + d);
        assert(v / 10 == seq_val(p) && v % 10 == d) by (nonlinear_arith)
            requires
                v == seq_val(p) * 10 + d,
                d < 10,
        ;
        assert(is_digit_char(t.last()));
        lemma_digit_char_inverse(d);
        assert(padded(v, t.len()) == padded(seq_val(p), p.len()).push(digit_char(d)));
        assert(p.push(t.last()) =~= t);
        let q = pow10(p.len());
        assert(pow10(t.len()) == 10 * q);
        assert(seq_val(p) * 10 + d < 10 * q) by (nonlinear_arith)
            requires
                seq_val(p) < q,
                d < 10,
        ;
    }
}

/// Appends the value `v` in exactly `w` digits, zero-padded.
pub fn push_padded(out: &mut String, v: u32, w: u32)
    ensures
        final(out)@ == old(out)@ + padded(v as nat, w as nat),
    decreases w,
{
    if w > 0 {
        push_padded(out, v / 10, w - 1);
        let d = digit_str(v % 10);
        out.append(d);
        proof {
            assert(padded((v / 10) as nat, (w - 1) as nat).push(digit_char((v % 10) as nat)) =~= padded(
                (v / 10) as nat,
                (w - 1) as nat,
            ) + seq![digit_char((v % 10) as nat)]);
        }
    } else {
        proof {
            assert(old(out)@ + padded(v as nat, 0) =~= old(out)@);
        }
    }
}

/// Reads a canonical decimal number at `pos`: a maximal digit run with no
/// leading zero, valued at most `max`. Returns the value and the position
/// after the run, or `None` when no such number sits there.
pub fn parse_dec(s: &str, n: usize, pos: usize, max: u64) -> (r: Option<(u64, usize)>)
    requires
        n == s@.len(),
        pos <= n,
    ensures
        r matches Some((v, end)) ==> {
            &&& v <= max
            &&& pos < end <= n
            &&& dec_at(s@, pos as int, v as nat)
            &&& end == pos + dec_seq(v as nat).len()
        },
        r is None ==> (forall|v: nat| v <= max ==> !dec_at(s@, pos as int, v)),
{
    if pos == n {
        proof {
            assert forall|v: nat| v <= max implies !dec_at(s@, pos as int, v) by {
                lemma_dec_seq_props(v);
            }
        }
        return None;
    }
    let d0 = match digit_of_char(s.get_char(pos)) {
        Some(d) => d,
        None => {
            proof {
                assert forall|v: nat| v <= max implies !dec_at(s@, pos as int, v) by {
                    lemma_dec_seq_props(v);
                    if dec_at(s@, pos as int, v) {
                        assert(s@.subrange(pos as int, pos + dec_seq(v).len() as int)[0]
                            == dec_seq(v)[0]);
                    }
                }
            }
            return None;
        },
    };
    proof {
        assert(is_digit_char(s@[pos as int]));
    }
    if d0 == 0 && pos + 1 < n {
        if let Some(_) = digit_of_char(s.get_char(pos + 1)) {
            proof {
                assert forall|v: nat| v <= max implies !dec_at(s@, pos as int, v) by {
                    lemma_dec_seq_props(v);
                    if dec_at(s@, pos as int, v) {
                        let ds = dec_seq(v);
                        assert(s@.subrange(pos as int, pos + ds.len() as int)[0] == ds[0]);
                        assert(ds[0] == '0');
                        assert(v == 0) by {
                            if v >= 1 {
                                assert(ds[0] != '0');
                            }
                        }
                        assert(ds.len() == 1);
                        assert(is_digit_char(s@[pos + 1]));
                    }
                }
            }
            return None;
        }
    }
    let mut acc: u64 = d0 as u64;
    if acc > max {
        // a one-digit number above the cap: the run is this digit alone
        proof {
            assert forall|v: nat| v <= max implies !dec_at(s@, pos as int, v) by {
                lemma_dec_seq_props(v);
                if dec_at(s@, pos as int, v) {
                    let ds = dec_seq(v);
                    assert(s@.subrange(pos as int, pos + ds.len() as int)[0] == ds[0]);
                    lemma_digits_run(s@, pos as int, v);
                    assert(seq_val(ds) == v);
                }
            }
        }
        return None;
    }
    let mut i: usize = pos + 1;
    proof {
        assert(s@.subrange(pos as int, pos + 1) =~= seq![s@[pos as int]]);
        assert(seq_val(seq![s@[pos as int]]) == char_digit(s@[pos as int])) by {
            assert(seq![s@[pos as int]].drop_last() =~= Seq::<char>::empty());
            assert(seq_val(Seq::<char>::empty()) == 0);
        }
    }
    while i < n
        invariant
            n == s@.len(),
            pos < i <= n,
            acc <= max,
            acc == seq_val(s@.subrange(pos as int, i as int)),
            forall|k: int| pos <= k < i ==> is_digit_char(s@[k]),
            canonical_digits(s@.subrange(pos as int, i as int)),
            s@[pos as int] == '0' ==> (pos + 1 == n || !is_digit_char(s@[pos + 1])),
        ensures
            n == s@.len(),
            pos < i <= n,
            acc <= max,
            acc == seq_val(s@.subrange(pos as int, i as int)),
            forall|k: int| pos <= k < i ==> is_digit_char(s@[k]),
            canonical_digits(s@.subrange(pos as int, i as int)),
            i == n || !is_digit_char(s@[i as int]),
        decreases n - i,
    {
        let d = match digit_of_char(s.get_char(i)) {
            Some(d) => d,
            None => {
                break ;
            },
        };
        proof {
            // a further digit means the first one was not a lone zero
            if s@[pos as int] == '0' {
                let run = s@.subrange(pos as int, i as int);
                assert(run[0] == s@[pos as int]);
                assert(run.len() == 1);
                assert(false);
            }
            let run = s@.subrange(pos as int, i + 1);
            assert(run.drop_last() =~= s@.subrange(pos as int, i as int));
            assert(run.last() == s@[i as int]);
            assert(run[0] == s@[pos as int]);
        }
        if d as u64 > max || acc > (max - d as u64) / 10 {
            // every longer run is above the cap
            proof {
                assert(acc * 10 + d > max) by {
                    if d as u64 > max {
                        assert(acc * 10 >= 0) by (nonlinear_arith);
                    } else {
                        let q = ((max - d as u64) / 10) as int;
                        assert(acc as int >= q + 1);
                        assert(acc as int * 10 >= (q + 1) * 10) by (nonlinear_arith)
                            requires
                                acc as int >= q + 1,
                        ;
                        assert(q * 10 + 10 > (max - d as u64) as int);
                    }
                }
                assert forall|v: nat| v <= max implies !dec_at(s@, pos as int, v) by {
                    if dec_at(s@, pos as int, v) {
                        lemma_dec_seq_props(v);
                        lemma_digits_run(s@, pos as int, v);
                        let ds = dec_seq(v);
                        // the run of v must extend past i, so v is at least the
                        // value of the digits up to and including i
                        assert(ds.len() > i - pos) by {
                            if ds.len() <= i - pos {
                                assert(is_digit_char(s@[pos + ds.len() as int]));
                            }
                        }
                        lemma_seq_val_prefix_le(ds, i + 1 - pos);
                        assert(ds.take(i + 1 - pos) =~= s@.subrange(pos as int, i + 1));
                        assert(seq_val(s@.subrange(pos as int, i + 1)) <= v);
                        let run = s@.subrange(pos as int, i + 1);
                        assert(run.drop_last() =~= s@.subrange(pos as int, i as int));
                        assert(seq_val(run) == acc * 10 + char_digit(s@[i as int]));
                    }
                }
            }
            return None;
        }
        proof {
            assert(acc * 10 + d <= max) by {
                let q = ((max - d as u64) / 10) as int;
                assert(acc as int <= q);
                assert(acc as int * 10 <= q * 10) by (nonlinear_arith)
                    requires
                        acc as int <= q,
                ;
                assert(q * 10 <= (max - d as u64) as int);
            }
        }
        acc = acc * 10 + d as u64;
        i = i + 1;
    }
    proof {
        let run = s@.subrange(pos as int, i as int);
        lemma_canonical_digits_round_trip(run);
        assert(dec_seq(acc as nat) == run);
    }
    Some((acc, i))
}

/// If a number sits canonically at `pos`, its text is exactly the digit run
/// starting there.
proof fn lemma_digits_run(s: Seq<char>, pos: int, v: nat)
    requires
        dec_at(s, pos, v),
    ensures
        forall|k: int|
            pos <= k < pos + dec_seq(v).len() ==> is_digit_char(#[trigger] s[k]),
{
    lemma_dec_seq_props(v);
    let ds = dec_seq(v);
    assert forall|k: int|
        pos <= k < pos + ds.len() implies is_digit_char(#[trigger] s[k]) by {
        assert(s.subrange(pos, pos + ds.len() as int)[k - pos] == ds[k - pos]);
    }
}

/// Reads exactly `w` digits at `pos` and returns their value: the fixed-width
/// field of a fraction. `None` when fewer than `w` digits sit there.
pub fn parse_padded(s: &str, n: usize, pos: usize, w: usize) -> (r: Option<(u64, usize)>)
    requires
        n == s@.len(),
        pos <= n,
        w <= 9,
    ensures
        r matches Some((v, end)) ==> {
            &&& end == pos + w
            &&& end <= n
            &&& (v as nat) < pow10(w as nat)
            &&& s@.subrange(pos as int, end as int) == padded(v as nat, w as nat)
        },
        r is None ==> !(pos + w <= n && (forall|k: int|
            pos <= k < pos + w ==> is_digit_char(s@[k]))),
{
    if w > n - pos {
        return None;
    }
    let mut acc: u64 = 0;
    let mut i: usize = pos;
    proof {
        assert(s@.subrange(pos as int, pos as int) =~= Seq::<char>::empty());
        lemma_pow10_pos(0);
    }
    while i < pos + w
        invariant
            n == s@.len(),
            pos <= i <= pos + w <= n,
            w <= 9,
            acc == seq_val(s@.subrange(pos as int, i as int)),
            acc < pow10((i - pos) as nat),
            forall|k: int| pos <= k < i ==> is_digit_char(s@[k]),
        decreases pos + w - i,
    {
        let d = match digit_of_char(s.get_char(i)) {
            Some(d) => d,
            None => {
                return None;
            },
        };
        proof {
            let run = s@.subrange(pos as int, i + 1);
            assert(run.drop_last() =~= s@.subrange(pos as int, i as int));
            assert(run.last() == s@[i as int]);
            lemma_pow10_le9((i + 1 - pos) as nat);
            assert(acc * 10 + d < pow10((i + 1 - pos) as nat)) by (nonlinear_arith)
                requires
                    acc < pow10((i - pos) as nat),
                    d < 10,
                    pow10((i + 1 - pos) as nat) == 10 * pow10((i - pos) as nat),
            ;
        }
        acc = acc * 10 + d as u64;
        i = i + 1;
    }
    proof {
        let run = s@.subrange(pos as int, (pos + w) as int);
        lemma_padded_round_trip(run);
    }
    Some((acc, pos + w))
}

/// Small powers of ten, concretely.
pub proof fn lemma_pow10_le9(w: nat)
    requires
        w <= 9,
    ensures
        pow10(w) <= 1_000_000_000,
        w >= 1 ==> pow10(w) == 10 * pow10((w - 1) as nat),
        w == 6 ==> pow10(w) == 1_000_000,
{
    assert(pow10(0) == 1);
    assert(pow10(1) == 10);
    assert(pow10(2) == 100);
    assert(pow10(3) == 1000);
    assert(pow10(4) == 10000);
    assert(pow10(5) == 100000);
    assert(pow10(6) == 1000000);
    assert(pow10(7) == 10000000);
    assert(pow10(8) == 100000000);
    assert(pow10(9) == 1000000000);
    if w == 0 {
    } else if w == 1 {
    } else if w == 2 {
    } else if w == 3 {
    } else if w == 4 {
    } else if w == 5 {
    } else if w == 6 {
    } else if w == 7 {
    } else if w == 8 {
    } else {
        assert(w == 9);
    }
}

} // verus!

verus! {

/// At one position of one text, at most one number sits canonically.
pub proof fn lemma_dec_at_unique(s: Seq<char>, pos: int, v1: nat, v2: nat)
    requires
        dec_at(s, pos, v1),
        dec_at(s, pos, v2),
    ensures
        v1 == v2,
{
    lemma_dec_seq_props(v1);
    lemma_dec_seq_props(v2);
    let d1 = dec_seq(v1);
    let d2 = dec_seq(v2);
    if d1.len() < d2.len() {
        assert(s.subrange(pos, pos + d2.len() as int)[d1.len() as int] == d2[d1.len() as int]);
        assert(is_digit_char(s[pos + d1.len()]));
        assert(false);
    }
    if d2.len() < d1.len() {
        assert(s.subrange(pos, pos + d1.len() as int)[d2.len() as int] == d1[d2.len() as int]);
        assert(is_digit_char(s[pos + d2.len()]));
        assert(false);
    }
    assert(d1 == s.subrange(pos, pos + d1.len() as int));
    assert(d2 == s.subrange(pos, pos + d2.len() as int));
    assert(seq_val(d1) == seq_val(d2));
}

} // verus!
