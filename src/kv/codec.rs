//! The on-disk record format.
//!
//! A segment is a back-to-back run of records with no delimiters. Each record
//! is one compact JSON object in the externally tagged enum layout:
//! `{"Set":["key","value"]}`, `{"Remove":"key"}` or `{"Get":"key"}`.
//! Strings are escaped as compact JSON writers do (`\"`, `\\`, the short
//! control escapes and `\u00xx` for the other control bytes); the decoder also
//! takes `\/` and `\u00xx` for any ASCII byte.

use vstd::prelude::*;
use vstd::utf8::*;
use crate::kv::{OpModel, Operation};

verus! {

broadcast use vstd::utf8::group_utf8_lib;

/// The lower-case hexadecimal digit for `n < 16`.
pub open spec fn hex_digit(n: u8) -> u8 {
    if n < 10 {
        (48 + n) as u8
    } else {
        (87 + n) as u8
    }
}

/// The value of a hexadecimal digit of either case.
pub open spec fn hex_value(c: u8) -> Option<u8> {
    if 48 <= c <= 57 {
        Some((c - 48) as u8)
    } else if 97 <= c <= 102 {
        Some((c - 87) as u8)
    } else if 65 <= c <= 70 {
        Some((c - 55) as u8)
    } else {
        None
    }
}

/// How one byte of a string is written between the quotes.
pub open spec fn escape_byte(b: u8) -> Seq<u8> {
    if b == 34 {
        seq![92u8, 34u8]
    } else if b == 92 {
        seq![92u8, 92u8]
    } else if b == 8 {
        seq![92u8, 98u8]
    } else if b == 12 {
        seq![92u8, 102u8]
    } else if b == 10 {
        seq![92u8, 110u8]
    } else if b == 13 {
        seq![92u8, 114u8]
    } else if b == 9 {
        seq![92u8, 116u8]
    } else if b < 32 {
        seq![92u8, 117u8, 48u8, 48u8, hex_digit(b / 16), hex_digit(b % 16)]
    } else {
        seq![b]
    }
}

/// The escaped form of a byte string.
pub open spec fn escape(b: Seq<u8>) -> Seq<u8>
    decreases b.len(),
{
    if b.len() == 0 {
        Seq::empty()
    } else {
        escape(b.drop_last()) + escape_byte(b.last())
    }
}

/// A string as written in a record: quoted, escaped UTF-8.
pub open spec fn encode_str(s: Seq<char>) -> Seq<u8> {
    seq![34u8] + escape(encode_utf8(s)) + seq![34u8]
}

pub open spec fn set_prefix() -> Seq<u8> {
    seq![123u8, 34u8, 83u8, 101u8, 116u8, 34u8, 58u8, 91u8]
}

pub open spec fn remove_prefix() -> Seq<u8> {
    seq![123u8, 34u8, 82u8, 101u8, 109u8, 111u8, 118u8, 101u8, 34u8, 58u8]
}

pub open spec fn get_prefix() -> Seq<u8> {
    seq![123u8, 34u8, 71u8, 101u8, 116u8, 34u8, 58u8]
}

/// The bytes of one record.
pub open spec fn encode_op(op: OpModel) -> Seq<u8> {
    match op {
        OpModel::Put(k, v) => set_prefix() + encode_str(k) + seq![44u8] + encode_str(v) + seq![
            93u8,
            125u8,
        ],
        OpModel::Remove(k) => remove_prefix() + encode_str(k) + seq![125u8],
        OpModel::Get(k) => get_prefix() + encode_str(k) + seq![125u8],
    }
}

/// Whether `lit` stands in `s` at position `i`.
pub open spec fn has_lit(s: Seq<u8>, i: int, lit: Seq<u8>) -> bool {
    0 <= i && i + lit.len() <= s.len() && s.subrange(i, i + lit.len()) == lit
}

/// The number of bytes after a backslash that an escape takes.
pub open spec fn escape_len(c: u8) -> int {
    if c == 117 {
        5
    } else {
        1
    }
}

/// The byte that the escape after the backslash at `j - 1` stands for.
pub open spec fn unescape_at(s: Seq<u8>, j: int) -> Option<u8> {
    if j < 0 || j >= s.len() {
        None
    } else {
        let c = s[j];
        if c == 34 || c == 92 || c == 47 {
            Some(c)
        } else if c == 98 {
            Some(8u8)
        } else if c == 102 {
            Some(12u8)
        } else if c == 110 {
            Some(10u8)
        } else if c == 114 {
            Some(13u8)
        } else if c == 116 {
            Some(9u8)
        } else if c == 117 && j + 4 < s.len() && s[j + 1] == 48 && s[j + 2] == 48 {
            match (hex_value(s[j + 3]), hex_value(s[j + 4])) {
                (Some(h), Some(l)) => if h < 8 {
                    Some((h * 16 + l) as u8)
                } else {
                    None
                },
                _ => None,
            }
        } else {
            None
        }
    }
}

/// Decodes the body of a string whose opening quote precedes `i`: the bytes it
/// stands for and the position just past its closing quote.
pub open spec fn str_body(s: Seq<u8>, i: int) -> Option<(Seq<u8>, int)>
    decreases s.len() - i,
{
    if i < 0 || i >= s.len() {
        None
    } else if s[i] == 34 {
        Some((Seq::empty(), i + 1))
    } else if s[i] == 92 {
        if i + 1 < s.len() {
            match unescape_at(s, i + 1) {
                Some(b) => match str_body(s, i + 1 + escape_len(s[i + 1])) {
                    Some((r, e)) => Some((seq![b] + r, e)),
                    None => None,
                },
                None => None,
            }
        } else {
            None
        }
    } else if s[i] < 32 {
        None
    } else {
        match str_body(s, i + 1) {
            Some((r, e)) => Some((seq![s[i]] + r, e)),
            None => None,
        }
    }
}

/// Decodes a quoted string at `i`: its characters and the position after it.
pub open spec fn parse_str(s: Seq<u8>, i: int) -> Option<(Seq<char>, int)> {
    if 0 <= i < s.len() && s[i] == 34 {
        match str_body(s, i + 1) {
            Some((b, e)) => if valid_utf8(b) {
                Some((decode_utf8(b), e))
            } else {
                None
            },
            None => None,
        }
    } else {
        None
    }
}

/// Whether byte `c` stands at position `i`.
pub open spec fn has_byte(s: Seq<u8>, i: int, c: u8) -> bool {
    0 <= i < s.len() && s[i] == c
}

/// Decodes one record at `i`: the operation and the position after it.
pub open spec fn parse_op(s: Seq<u8>, i: int) -> Option<(OpModel, int)> {
    if has_lit(s, i, set_prefix()) {
        match parse_str(s, i + 8) {
            Some((k, e1)) => if has_byte(s, e1, 44) {
                match parse_str(s, e1 + 1) {
                    Some((v, e2)) => if has_byte(s, e2, 93) && has_byte(s, e2 + 1, 125) {
                        Some((OpModel::Put(k, v), e2 + 2))
                    } else {
                        None
                    },
                    None => None,
                }
            } else {
                None
            },
            None => None,
        }
    } else if has_lit(s, i, remove_prefix()) {
        match parse_str(s, i + 10) {
            Some((k, e)) => if has_byte(s, e, 125) {
                Some((OpModel::Remove(k), e + 1))
            } else {
                None
            },
            None => None,
        }
    } else if has_lit(s, i, get_prefix()) {
        match parse_str(s, i + 7) {
            Some((k, e)) => if has_byte(s, e, 125) {
                Some((OpModel::Get(k), e + 1))
            } else {
                None
            },
            None => None,
        }
    } else {
        None
    }
}


/// Escaping works byte by byte.
pub proof fn lemma_escape_append(a: Seq<u8>, c: Seq<u8>)
    ensures
        escape(a + c) == escape(a) + escape(c),
    decreases c.len(),
{
    if c.len() == 0 {
        assert(a + c =~= a);
        assert(escape(a) + escape(c) =~= escape(a));
    } else {
        lemma_escape_append(a, c.drop_last());
        assert((a + c).drop_last() =~= a + c.drop_last());
        assert((a + c).last() == c.last());
        assert(escape(a + c) =~= escape(a) + escape(c));
    }
}

proof fn lemma_hex_round_trip(n: u8)
    requires
        n < 16,
    ensures
        hex_value(hex_digit(n)) == Some(n),
{
}

/// Decoding a string body looks at nothing past its closing quote.
pub proof fn lemma_str_body_stable(s: Seq<u8>, t: Seq<u8>, i: int)
    requires
        str_body(s, i) is Some,
    ensures
        str_body(s + t, i) == str_body(s, i),
    decreases s.len() - i,
{
    let st = s + t;
    assert(st[i] == s[i]);
    if s[i] == 34 {
    } else if s[i] == 92 {
        let j = i + 1;
        assert(st[j] == s[j]);
        if s[j] == 117 {
            assert(st[j + 1] == s[j + 1]);
            assert(st[j + 2] == s[j + 2]);
            assert(st[j + 3] == s[j + 3]);
            assert(st[j + 4] == s[j + 4]);
        }
        assert(unescape_at(st, j) == unescape_at(s, j));
        lemma_str_body_stable(s, t, i + 1 + escape_len(s[i + 1]));
    } else {
        lemma_str_body_stable(s, t, i + 1);
    }
}

/// One escaped byte at the front of a string body.
proof fn lemma_str_body_step(s: Seq<u8>, i: int, b0: u8)
    requires
        0 <= i,
        i + escape_byte(b0).len() < s.len(),
        forall|k: int| 0 <= k < escape_byte(b0).len() ==> s[i + k] == #[trigger] escape_byte(b0)[k],
    ensures
        str_body(s, i) == match str_body(s, i + escape_byte(b0).len()) {
            Some((r, e)) => Some((seq![b0] + r, e)),
            None => None,
        },
{
    let eb = escape_byte(b0);
    assert(s[i] == eb[0]);
    if eb.len() > 1 {
        assert(s[i + 1] == eb[1]);
        if b0 < 32 && b0 != 8 && b0 != 12 && b0 != 10 && b0 != 13 && b0 != 9 {
            lemma_hex_round_trip(b0 / 16);
            lemma_hex_round_trip(b0 % 16);
            assert(s[i + 2] == eb[2]);
            assert(s[i + 3] == eb[3]);
            assert(s[i + 4] == eb[4]);
            assert(s[i + 5] == eb[5]);
        }
        assert(unescape_at(s, i + 1) == Some(b0));
    }
}

proof fn lemma_escape_single(b0: u8)
    ensures
        escape(seq![b0]) == escape_byte(b0),
{
    assert(seq![b0].drop_last() =~= Seq::<u8>::empty());
    assert(escape(Seq::<u8>::empty()) =~= Seq::<u8>::empty());
    assert(escape(seq![b0]) =~= escape(Seq::<u8>::empty()) + escape_byte(b0));
}

/// A string body decodes, after any prefix, to the bytes that were escaped.
pub proof fn lemma_str_body_round_trip(p: Seq<u8>, b: Seq<u8>, t: Seq<u8>)
    ensures
        str_body(p + escape(b) + seq![34u8] + t, p.len() as int) == Some(
            (b, (p.len() + escape(b).len() + 1) as int),
        ),
    decreases b.len(),
{
    let s = p + escape(b) + seq![34u8] + t;
    let i = p.len() as int;
    if b.len() == 0 {
        assert(escape(b) =~= Seq::<u8>::empty());
        assert(s[i] == 34);
        assert(b =~= Seq::<u8>::empty());
    } else {
        let b0 = b[0];
        let rest = b.drop_first();
        let eb = escape_byte(b0);
        assert(b =~= seq![b0] + rest);
        lemma_escape_append(seq![b0], rest);
        lemma_escape_single(b0);
        let p2 = p + eb;
        assert(s =~= p2 + escape(rest) + seq![34u8] + t);
        lemma_str_body_round_trip(p2, rest, t);
        assert forall|k: int| 0 <= k < eb.len() implies s[i + k] == #[trigger] eb[k] by {
            assert(s[i + k] == p2[i + k]);
        }
        lemma_str_body_step(s, i, b0);
        assert(seq![b0] + rest =~= b);
    }
}

/// A quoted string decodes, after any prefix, to the characters written.
pub proof fn lemma_str_round_trip(p: Seq<u8>, c: Seq<char>, t: Seq<u8>)
    ensures
        parse_str(p + encode_str(c) + t, p.len() as int) == Some(
            (c, (p.len() + encode_str(c).len()) as int),
        ),
{
    let b = encode_utf8(c);
    let s = p + encode_str(c) + t;
    let p1 = p + seq![34u8];
    assert(s =~= p1 + escape(b) + seq![34u8] + t);
    lemma_str_body_round_trip(p1, b, t);
    assert(s[p.len() as int] == 34);
}

#[verifier::rlimit(60)]
proof fn lemma_put_round_trip(p: Seq<u8>, k: Seq<char>, v: Seq<char>, t: Seq<u8>)
    ensures
        parse_op(p + encode_op(OpModel::Put(k, v)) + t, p.len() as int) == Some(
            (OpModel::Put(k, v), (p.len() + encode_op(OpModel::Put(k, v)).len()) as int),
        ),
{
    let s = p + encode_op(OpModel::Put(k, v)) + t;
    let i = p.len() as int;
    let p1 = p + set_prefix();
    let rest1 = seq![44u8] + encode_str(v) + seq![93u8, 125u8] + t;
    assert(s =~= p1 + encode_str(k) + rest1);
    assert(s.subrange(i, i + 8) =~= set_prefix());
    lemma_str_round_trip(p1, k, rest1);
    let e1 = (p1.len() + encode_str(k).len()) as int;
    let p2 = p1 + encode_str(k) + seq![44u8];
    let rest2 = seq![93u8, 125u8] + t;
    assert(s =~= p2 + encode_str(v) + rest2);
    assert(s[e1] == 44);
    lemma_str_round_trip(p2, v, rest2);
    let e2 = (p2.len() + encode_str(v).len()) as int;
    assert(s[e2] == 93);
    assert(s[e2 + 1] == 125);
}

proof fn lemma_remove_round_trip(p: Seq<u8>, k: Seq<char>, t: Seq<u8>)
    ensures
        parse_op(p + encode_op(OpModel::Remove(k)) + t, p.len() as int) == Some(
            (OpModel::Remove(k), (p.len() + encode_op(OpModel::Remove(k)).len()) as int),
        ),
{
    let s = p + encode_op(OpModel::Remove(k)) + t;
    let i = p.len() as int;
    let p1 = p + remove_prefix();
    let rest1 = seq![125u8] + t;
    assert(s =~= p1 + encode_str(k) + rest1);
    assert(s[i + 2] == 82);
    assert(!has_lit(s, i, set_prefix())) by {
        if has_lit(s, i, set_prefix()) {
            assert(s.subrange(i, i + 8)[2] == s[i + 2]);
        }
    }
    assert(s.subrange(i, i + 10) =~= remove_prefix());
    lemma_str_round_trip(p1, k, rest1);
    assert(s[(p1.len() + encode_str(k).len()) as int] == 125);
}

proof fn lemma_get_round_trip(p: Seq<u8>, k: Seq<char>, t: Seq<u8>)
    ensures
        parse_op(p + encode_op(OpModel::Get(k)) + t, p.len() as int) == Some(
            (OpModel::Get(k), (p.len() + encode_op(OpModel::Get(k)).len()) as int),
        ),
{
    let s = p + encode_op(OpModel::Get(k)) + t;
    let i = p.len() as int;
    let p1 = p + get_prefix();
    let rest1 = seq![125u8] + t;
    assert(s =~= p1 + encode_str(k) + rest1);
    assert(s[i + 2] == 71);
    assert(!has_lit(s, i, set_prefix())) by {
        if has_lit(s, i, set_prefix()) {
            assert(s.subrange(i, i + 8)[2] == s[i + 2]);
        }
    }
    assert(!has_lit(s, i, remove_prefix())) by {
        if has_lit(s, i, remove_prefix()) {
            assert(s.subrange(i, i + 10)[2] == s[i + 2]);
        }
    }
    assert(s.subrange(i, i + 7) =~= get_prefix());
    lemma_str_round_trip(p1, k, rest1);
    assert(s[(p1.len() + encode_str(k).len()) as int] == 125);
}

/// A record decodes, after any prefix and before anything, to the operation written.
pub proof fn lemma_op_round_trip(p: Seq<u8>, op: OpModel, t: Seq<u8>)
    ensures
        parse_op(p + encode_op(op) + t, p.len() as int) == Some(
            (op, (p.len() + encode_op(op).len()) as int),
        ),
{
    match op {
        OpModel::Put(k, v) => lemma_put_round_trip(p, k, v, t),
        OpModel::Remove(k) => lemma_remove_round_trip(p, k, t),
        OpModel::Get(k) => lemma_get_round_trip(p, k, t),
    }
}

proof fn lemma_has_lit_stable(s: Seq<u8>, t: Seq<u8>, i: int, lit: Seq<u8>)
    requires
        i + lit.len() <= s.len(),
    ensures
        has_lit(s + t, i, lit) == has_lit(s, i, lit),
{
    if 0 <= i {
        assert((s + t).subrange(i, i + lit.len()) =~= s.subrange(i, i + lit.len()));
    }
}

proof fn lemma_parse_str_stable(s: Seq<u8>, t: Seq<u8>, i: int)
    requires
        parse_str(s, i) is Some,
    ensures
        parse_str(s + t, i) == parse_str(s, i),
{
    assert((s + t)[i] == s[i]);
    lemma_str_body_stable(s, t, i + 1);
}

/// Decoding a record looks at nothing past its end.
pub proof fn lemma_op_stable(s: Seq<u8>, t: Seq<u8>, i: int)
    requires
        parse_op(s, i) is Some,
    ensures
        parse_op(s + t, i) == parse_op(s, i),
{
    let st = s + t;
    if has_lit(s, i, set_prefix()) {
        lemma_has_lit_stable(s, t, i, set_prefix());
        let (k, e1) = parse_str(s, i + 8).unwrap();
        lemma_parse_str_stable(s, t, i + 8);
        assert(st[e1] == s[e1]);
        lemma_parse_str_stable(s, t, e1 + 1);
        let (v, e2) = parse_str(s, e1 + 1).unwrap();
        assert(st[e2] == s[e2]);
        assert(st[e2 + 1] == s[e2 + 1]);
    } else if has_lit(s, i, remove_prefix()) {
        if i + 8 <= s.len() {
            lemma_has_lit_stable(s, t, i, set_prefix());
        } else {
            assert(!has_lit(st, i, set_prefix())) by {
                if has_lit(st, i, set_prefix()) {
                    assert(st.subrange(i, i + 8)[2] == s[i + 2]);
                    assert(s.subrange(i, i + 10)[2] == s[i + 2]);
                }
            }
        }
        lemma_has_lit_stable(s, t, i, remove_prefix());
        let (k, e) = parse_str(s, i + 10).unwrap();
        lemma_parse_str_stable(s, t, i + 10);
        assert(st[e] == s[e]);
    } else {
        assert(!has_lit(st, i, set_prefix())) by {
            if has_lit(st, i, set_prefix()) {
                assert(st.subrange(i, i + 8)[2] == s[i + 2]);
                assert(s.subrange(i, i + 7)[2] == s[i + 2]);
            }
        }
        assert(!has_lit(st, i, remove_prefix())) by {
            if has_lit(st, i, remove_prefix()) {
                assert(st.subrange(i, i + 10)[2] == s[i + 2]);
                assert(s.subrange(i, i + 7)[2] == s[i + 2]);
            }
        }
        lemma_has_lit_stable(s, t, i, get_prefix());
        let (k, e) = parse_str(s, i + 7).unwrap();
        lemma_parse_str_stable(s, t, i + 7);
        assert(st[e] == s[e]);
    }
}

/// Decodes the records from `i` to the end of a segment: each with its offset.
pub open spec fn parse_records(s: Seq<u8>, i: int) -> Option<Seq<(int, OpModel)>>
    decreases s.len() - i,
{
    if i < 0 || i > s.len() {
        None
    } else if i == s.len() {
        Some(Seq::empty())
    } else {
        match parse_op(s, i) {
            Some((op, e)) => if i < e <= s.len() {
                match parse_records(s, e) {
                    Some(rest) => Some(seq![(i, op)] + rest),
                    None => None,
                }
            } else {
                None
            },
            None => None,
        }
    }
}

/// Appending a record to a segment that decodes adds that record at its end.
pub proof fn lemma_records_append(s: Seq<u8>, i: int, op: OpModel)
    requires
        parse_records(s, i) is Some,
    ensures
        parse_records(s + encode_op(op), i) == Some(
            parse_records(s, i)->Some_0.push((s.len() as int, op)),
        ),
    decreases s.len() - i,
{
    let t = s + encode_op(op);
    if i == s.len() {
        lemma_op_round_trip(s, op, Seq::<u8>::empty());
        assert(s + encode_op(op) + Seq::<u8>::empty() =~= t);
        assert(parse_records(t, t.len() as int) == Some(Seq::<(int, OpModel)>::empty()));
        assert(seq![(i, op)] + Seq::<(int, OpModel)>::empty() =~= Seq::<(int, OpModel)>::empty().push((i, op)));
    } else {
        let (o, e) = parse_op(s, i)->Some_0;
        lemma_op_stable(s, encode_op(op), i);
        lemma_records_append(s, e, op);
        let rest = parse_records(s, e)->Some_0;
        assert(seq![(i, o)] + rest.push((s.len() as int, op)) =~= (seq![(i, o)] + rest).push((s.len() as int, op)));
    }
}

fn hex_digit_of(n: u8) -> (r: u8)
    requires
        n < 16,
    ensures
        r == hex_digit(n),
{
    if n < 10 {
        48 + n
    } else {
        87 + n
    }
}

fn hex_value_of(c: u8) -> (r: Option<u8>)
    ensures
        r == hex_value(c),
{
    if 48 <= c && c <= 57 {
        Some(c - 48)
    } else if 97 <= c && c <= 102 {
        Some(c - 87)
    } else if 65 <= c && c <= 70 {
        Some(c - 55)
    } else {
        None
    }
}

fn push_escaped(out: &mut Vec<u8>, b: u8)
    ensures
        final(out)@ == old(out)@ + escape_byte(b),
{
    let ghost start = out@;
    if b == 34 || b == 92 {
        out.push(92);
        out.push(b);
    } else if b == 8 {
        out.push(92);
        out.push(98);
    } else if b == 12 {
        out.push(92);
        out.push(102);
    } else if b == 10 {
        out.push(92);
        out.push(110);
    } else if b == 13 {
        out.push(92);
        out.push(114);
    } else if b == 9 {
        out.push(92);
        out.push(116);
    } else if b < 32 {
        out.push(92);
        out.push(117);
        out.push(48);
        out.push(48);
        out.push(hex_digit_of(b / 16));
        out.push(hex_digit_of(b % 16));
    } else {
        out.push(b);
    }
    assert(out@ =~= start + escape_byte(b));
}

/// Appends `s` as a quoted, escaped string.
fn push_str(out: &mut Vec<u8>, s: &String)
    ensures
        final(out)@ == old(out)@ + encode_str(s@),
{
    let ghost start = out@;
    let b = s.as_str().as_bytes();
    out.push(34);
    let mut i: usize = 0;
    while i < b.len()
        invariant
            i <= b@.len(),
            b@ == encode_utf8(s@),
            out@ == start + seq![34u8] + escape(b@.subrange(0, i as int)),
        decreases b@.len() - i,
    {
        let ghost before = out@;
        push_escaped(out, b[i]);
        proof {
            let sub = b@.subrange(0, i + 1);
            assert(sub.drop_last() =~= b@.subrange(0, i as int));
            assert(sub.last() == b@[i as int]);
            assert(out@ =~= start + seq![34u8] + escape(sub));
        }
        i = i + 1;
    }
    out.push(34);
    assert(b@.subrange(0, b@.len() as int) =~= b@);
    assert(out@ =~= start + encode_str(s@));
}

pub(crate) fn push_bytes(out: &mut Vec<u8>, lit: &[u8])
    ensures
        final(out)@ == old(out)@ + lit@,
{
    let ghost start = out@;
    let mut i: usize = 0;
    while i < lit.len()
        invariant
            i <= lit@.len(),
            out@ == start + lit@.subrange(0, i as int),
        decreases lit@.len() - i,
    {
        out.push(lit[i]);
        assert(lit@.subrange(0, i + 1) =~= lit@.subrange(0, i as int).push(lit@[i as int]));
        i = i + 1;
    }
    assert(lit@.subrange(0, lit@.len() as int) =~= lit@);
}

/// The bytes of one record.
pub fn encode_record(op: &Operation) -> (r: Vec<u8>)
    ensures
        r@ == encode_op(op@),
{
    let mut out: Vec<u8> = Vec::new();
    match op {
        Operation::Put(k, v) => {
            let prefix: [u8; 8] = [123, 34, 83, 101, 116, 34, 58, 91];
            assert(prefix@ =~= set_prefix());
            push_bytes(&mut out, &prefix);
            push_str(&mut out, k);
            out.push(44);
            push_str(&mut out, v);
            out.push(93);
            out.push(125);
        },
        Operation::Remove(k) => {
            let prefix: [u8; 10] = [123, 34, 82, 101, 109, 111, 118, 101, 34, 58];
            assert(prefix@ =~= remove_prefix());
            push_bytes(&mut out, &prefix);
            push_str(&mut out, k);
            out.push(125);
        },
        Operation::Get(k) => {
            let prefix: [u8; 7] = [123, 34, 71, 101, 116, 34, 58];
            assert(prefix@ =~= get_prefix());
            push_bytes(&mut out, &prefix);
            push_str(&mut out, k);
            out.push(125);
        },
    }
    assert(out@ =~= encode_op(op@));
    out
}

fn unescape_byte(s: &[u8], j: usize) -> (r: Option<u8>)
    ensures
        r == unescape_at(s@, j as int),
{
    if j >= s.len() {
        return None;
    }
    let c = s[j];
    if c == 34 || c == 92 || c == 47 {
        Some(c)
    } else if c == 98 {
        Some(8)
    } else if c == 102 {
        Some(12)
    } else if c == 110 {
        Some(10)
    } else if c == 114 {
        Some(13)
    } else if c == 116 {
        Some(9)
    } else if c == 117 && s.len() - j > 4 && s[j + 1] == 48 && s[j + 2] == 48 {
        match (hex_value_of(s[j + 3]), hex_value_of(s[j + 4])) {
            (Some(h), Some(l)) => if h < 8 {
                Some(h * 16 + l)
            } else {
                None
            },
            _ => None,
        }
    } else {
        None
    }
}

/// Decodes the body of a string whose opening quote precedes `i`.
fn decode_str_body(s: &[u8], i: usize) -> (r: Option<(Vec<u8>, usize)>)
    ensures
        match r {
            Some((b, e)) => str_body(s@, i as int) == Some((b@, e as int)) && e <= s@.len(),
            None => str_body(s@, i as int) is None,
        },
{
    let mut out: Vec<u8> = Vec::new();
    let mut j: usize = i;
    loop
        invariant
            str_body(s@, i as int) == match str_body(s@, j as int) {
                Some((r, e)) => Some((out@ + r, e)),
                None => None,
            },
        decreases s@.len() - j,
    {
        if j >= s.len() {
            return None;
        }
        let c = s[j];
        if c == 34 {
            assert(out@ + Seq::<u8>::empty() =~= out@);
            return Some((out, j + 1));
        } else if c == 92 {
            if j + 1 >= s.len() {
                return None;
            }
            let d = s[j + 1];
            match unescape_byte(s, j + 1) {
                Some(b) => {
                    let ghost before = out@;
                    out.push(b);
                    proof {
                        match str_body(s@, j + 1 + escape_len(d)) {
                            Some((r, e)) => {
                                assert(before + (seq![b] + r) =~= out@ + r);
                            },
                            None => {},
                        }
                    }
                    if d == 117 {
                        j = j + 6;
                    } else {
                        j = j + 2;
                    }
                },
                None => {
                    return None;
                },
            }
        } else if c < 32 {
            return None;
        } else {
            let ghost before = out@;
            out.push(c);
            proof {
                match str_body(s@, j + 1) {
                    Some((r, e)) => {
                        assert(before + (seq![c] + r) =~= out@ + r);
                    },
                    None => {},
                }
            }
            j = j + 1;
        }
    }
}

/// Relies on `String::from_utf8`: it accepts exactly the well-formed UTF-8
/// byte strings and yields the characters they encode.
#[verifier::external_body]
fn string_from_utf8(b: Vec<u8>) -> (r: Option<String>)
    ensures
        r is Some <==> valid_utf8(b@),
        r matches Some(s) ==> s@ == decode_utf8(b@),
{
    String::from_utf8(b).ok()
}

/// Decodes a quoted string at `i`.
fn decode_str(s: &[u8], i: usize) -> (r: Option<(String, usize)>)
    ensures
        match r {
            Some((v, e)) => parse_str(s@, i as int) == Some((v@, e as int)) && e <= s@.len(),
            None => parse_str(s@, i as int) is None,
        },
{
    if i >= s.len() || s[i] != 34 {
        return None;
    }
    match decode_str_body(s, i + 1) {
        Some((b, e)) => match string_from_utf8(b) {
            Some(v) => Some((v, e)),
            None => None,
        },
        None => None,
    }
}

fn has_bytes(s: &[u8], i: usize, lit: &[u8]) -> (r: bool)
    ensures
        r == has_lit(s@, i as int, lit@),
{
    if i > s.len() || lit.len() > s.len() - i {
        return false;
    }
    let n = s.len();
    let mut k: usize = 0;
    while k < lit.len()
        invariant
            n == s@.len(),
            i + lit@.len() <= s@.len(),
            k <= lit@.len(),
            forall|m: int| 0 <= m < k ==> s@[i + m] == lit@[m],
        decreases lit@.len() - k,
    {
        if s[i + k] != lit[k] {
            assert(s@.subrange(i as int, i + lit@.len())[k as int] != lit@[k as int]);
            return false;
        }
        k = k + 1;
    }
    assert(s@.subrange(i as int, i + lit@.len()) =~= lit@);
    true
}

fn byte_is(s: &[u8], i: usize, c: u8) -> (r: bool)
    ensures
        r == has_byte(s@, i as int, c),
{
    i < s.len() && s[i] == c
}

/// Decodes one record at `i`: the operation and the position just past it.
pub fn decode_record(s: &[u8], i: usize) -> (r: Option<(Operation, usize)>)
    ensures
        match r {
            Some((op, e)) => parse_op(s@, i as int) == Some((op@, e as int)),
            None => parse_op(s@, i as int) is None,
        },
{
    let n = s.len();
    let set_lit: [u8; 8] = [123, 34, 83, 101, 116, 34, 58, 91];
    let remove_lit: [u8; 10] = [123, 34, 82, 101, 109, 111, 118, 101, 34, 58];
    let get_lit: [u8; 7] = [123, 34, 71, 101, 116, 34, 58];
    assert(set_lit@ =~= set_prefix());
    assert(remove_lit@ =~= remove_prefix());
    assert(get_lit@ =~= get_prefix());
    if has_bytes(s, i, &set_lit) {
        let (k, e1) = match decode_str(s, i + 8) {
            Some(x) => x,
            None => return None,
        };
        if !byte_is(s, e1, 44) {
            return None;
        }
        let (v, e2) = match decode_str(s, e1 + 1) {
            Some(x) => x,
            None => return None,
        };
        if byte_is(s, e2, 93) && byte_is(s, e2 + 1, 125) {
            Some((Operation::Put(k, v), e2 + 2))
        } else {
            None
        }
    } else if has_bytes(s, i, &remove_lit) {
        let (k, e) = match decode_str(s, i + 10) {
            Some(x) => x,
            None => return None,
        };
        if byte_is(s, e, 125) {
            Some((Operation::Remove(k), e + 1))
        } else {
            None
        }
    } else if has_bytes(s, i, &get_lit) {
        let (k, e) = match decode_str(s, i + 7) {
            Some(x) => x,
            None => return None,
        };
        if byte_is(s, e, 125) {
            Some((Operation::Get(k), e + 1))
        } else {
            None
        }
    } else {
        None
    }
}

} // verus!
