//! Decoding in parts decodes what decoding at once does.
//!
//! A value that parses keeps parsing, to the same end, when more bytes
//! follow; and what parses at a position depends on the bytes from there on
//! alone.
use vstd::prelude::*;
use vstd::utf8::*;

use crate::parser::{
    broken_line, decoded, is_eol_byte, is_first_eol, is_line_end, is_prefix, items_never_parse,
    leftover, line_end, never_parses, parse_items, parse_stream, parse_value, unsigned_of,
    DOLLAR, LF, MINUS, ONE, STAR,
};

verus! {

/// A parse moves forward and stays within the bytes.
pub proof fn lemma_value_bounds(b: Seq<u8>, p: int)
    ensures
        parse_value(b, p) matches Some((v, q)) ==> p < q <= b.len(),
    decreases b.len() - p, 0int,
{
    if 0 <= p < b.len() && is_prefix(b[p]) {
        if let Some(e) = line_end(b, p + 1) {
            assert(is_line_end(b, p + 1, e));
            if b[p] == STAR {
                if let Some(n) = unsigned_of(b.subrange(p + 1, e)) {
                    lemma_items_bounds(b, e + 2, n);
                }
            }
        }
    }
}

/// Items move forward and stay within the bytes.
pub proof fn lemma_items_bounds(b: Seq<u8>, p: int, n: nat)
    requires
        0 <= p <= b.len(),
    ensures
        parse_items(b, p, n) matches Some((vs, q)) ==> p <= q <= b.len(),
    decreases b.len() - p, n,
{
    if n > 0 {
        lemma_value_bounds(b, p);
        if let Some((v, q)) = parse_value(b, p) {
            lemma_items_bounds(b, q, (n - 1) as nat);
        }
    }
}

proof fn lemma_line_end_extends(b: Seq<u8>, c: Seq<u8>, s: int)
    ensures
        line_end(b, s) matches Some(e) ==> line_end(b + c, s) == Some(e),
{
    if let Some(e) = line_end(b, s) {
        let bc = b + c;
        assert(is_line_end(b, s, e));
        assert(is_line_end(bc, s, e)) by {
            assert forall|k: int| s <= k < e implies !is_eol_byte(#[trigger] bc[k]) by {
                assert(bc[k] == b[k]);
            }
        }
        assert forall|e2: int| is_line_end(bc, s, e2) implies e2 == e by {
            if e2 < e {
                assert(!is_eol_byte(b[e2]));
                assert(bc[e2] == b[e2]);
            } else if e2 > e {
                assert(!is_eol_byte(bc[e]));
            }
        }
    }
}

/// More bytes after a value leave its parse as it was.
pub proof fn lemma_value_extends(b: Seq<u8>, c: Seq<u8>, p: int)
    ensures
        parse_value(b, p) matches Some(r) ==> parse_value(b + c, p) == Some(r),
    decreases b.len() - p, 0int,
{
    let bc = b + c;
    if let Some((v, q)) = parse_value(b, p) {
        let e = line_end(b, p + 1)->0;
        lemma_line_end_extends(b, c, p + 1);
        assert(is_line_end(b, p + 1, e));
        assert(bc[p] == b[p]);
        assert(bc.subrange(p + 1, e) =~= b.subrange(p + 1, e));
        if b[p] == DOLLAR && !(b.subrange(p + 1, e) =~= seq![MINUS, ONE]) {
            let n = unsigned_of(b.subrange(p + 1, e))->0;
            let stop = e + 2 + n;
            assert(bc[stop] == b[stop]);
            assert(bc[stop + 1] == b[stop + 1]);
            assert(bc.subrange(e + 2, stop) =~= b.subrange(e + 2, stop));
        }
        if b[p] == STAR {
            let n = unsigned_of(b.subrange(p + 1, e))->0;
            lemma_items_extends(b, c, e + 2, n);
        }
    }
}

/// More bytes after items leave their parse as it was.
pub proof fn lemma_items_extends(b: Seq<u8>, c: Seq<u8>, p: int, n: nat)
    requires
        0 <= p <= b.len(),
    ensures
        parse_items(b, p, n) matches Some(r) ==> parse_items(b + c, p, n) == Some(r),
    decreases b.len() - p, n,
{
    if n > 0 {
        if let Some((v, q)) = parse_value(b, p) {
            lemma_value_bounds(b, p);
            lemma_value_extends(b, c, p);
            lemma_items_extends(b, c, q, (n - 1) as nat);
        }
    }
}

/// More bytes leave the values parsed so far as they were; parsing goes on
/// from where it stopped.
pub proof fn lemma_stream_extends(b: Seq<u8>, c: Seq<u8>, p: int)
    requires
        0 <= p <= b.len(),
    ensures
        ({
            let (vs, k) = parse_stream(b, p);
            let (ws, m) = parse_stream(b + c, k);
            parse_stream(b + c, p) == (vs + ws, m)
        }),
    decreases b.len() - p,
{
    lemma_value_bounds(b, p);
    if let Some((v, q)) = parse_value(b, p) {
        lemma_value_extends(b, c, p);
        lemma_value_bounds(b + c, p);
        lemma_stream_extends(b, c, q);
        let (vs, k) = parse_stream(b, q);
        let (ws, m) = parse_stream(b + c, k);
        assert(seq![v] + (vs + ws) =~= (seq![v] + vs) + ws);
    } else {
        let (ws, m) = parse_stream(b + c, p);
        assert(seq![] + ws =~= ws);
    }
}

proof fn lemma_line_end_shifts(a: Seq<u8>, d: Seq<u8>, s: int)
    requires
        0 <= s,
    ensures
        line_end(a + d, a.len() + s) == match line_end(d, s) {
            Some(e) => Some(a.len() + e),
            None => None,
        },
{
    let ad = a + d;
    let k = a.len() as int;
    assert forall|e: int| is_line_end(d, s, e) implies is_line_end(ad, k + s, k + e) by {
        assert(ad[k + e] == d[e]);
        assert(ad[k + e + 1] == d[e + 1]);
        assert forall|j: int| k + s <= j < k + e implies !is_eol_byte(#[trigger] ad[j]) by {
            assert(ad[j] == d[j - k]);
        }
    }
    assert forall|e2: int| #[trigger] is_line_end(ad, k + s, e2) implies is_line_end(d, s, e2 - k) by {
        assert(ad[e2] == d[e2 - k]);
        assert(ad[e2 + 1] == d[e2 + 1 - k]);
        assert forall|j: int| s <= j < e2 - k implies !is_eol_byte(#[trigger] d[j]) by {
            assert(ad[j + k] == d[j]);
        }
    }
    if let Some(e) = line_end(d, s) {
        assert(is_line_end(d, s, e));
        assert(is_line_end(ad, k + s, k + e));
        let e2 = line_end(ad, k + s)->0;
        assert(is_line_end(ad, k + s, e2));
        assert(is_line_end(d, s, e2 - k));
        if e2 - k < e {
            assert(!is_eol_byte(d[e2 - k]));
        } else if e2 - k > e {
            assert(!is_eol_byte(d[e]));
        }
    } else {
        if exists|e2: int| #[trigger] is_line_end(ad, k + s, e2) {
            let e2 = choose|e2: int| #[trigger] is_line_end(ad, k + s, e2);
            assert(is_line_end(d, s, e2 - k));
        }
    }
}

/// What parses at a position depends on the bytes from there on alone.
pub proof fn lemma_value_shifts(a: Seq<u8>, d: Seq<u8>, p: int)
    requires
        0 <= p,
    ensures
        parse_value(a + d, a.len() + p) == match parse_value(d, p) {
            Some((v, q)) => Some((v, a.len() + q)),
            None => None,
        },
    decreases d.len() - p, 0int,
{
    let ad = a + d;
    let k = a.len() as int;
    if 0 <= p < d.len() {
        assert(ad[k + p] == d[p]);
        lemma_line_end_shifts(a, d, p + 1);
        if let Some(e) = line_end(d, p + 1) {
            assert(is_line_end(d, p + 1, e));
            assert(ad.subrange(k + p + 1, k + e) =~= d.subrange(p + 1, e));
            if d[p] == DOLLAR && !(d.subrange(p + 1, e) =~= seq![MINUS, ONE]) {
                if let Some(n) = unsigned_of(d.subrange(p + 1, e)) {
                    let stop = e + 2 + n;
                    if stop + 1 < d.len() {
                        assert(ad[k + stop] == d[stop]);
                        assert(ad[k + stop + 1] == d[stop + 1]);
                        assert(ad.subrange(k + e + 2, k + stop) =~= d.subrange(e + 2, stop));
                    }
                }
            }
            if d[p] == STAR {
                if let Some(n) = unsigned_of(d.subrange(p + 1, e)) {
                    lemma_items_shifts(a, d, e + 2, n);
                }
            }
        }
    }
}

/// Items parse alike wherever the bytes from their start stand.
pub proof fn lemma_items_shifts(a: Seq<u8>, d: Seq<u8>, p: int, n: nat)
    requires
        0 <= p <= d.len(),
    ensures
        parse_items(a + d, a.len() + p, n) == match parse_items(d, p, n) {
            Some((vs, q)) => Some((vs, a.len() + q)),
            None => None,
        },
    decreases d.len() - p, n,
{
    if n > 0 {
        lemma_value_shifts(a, d, p);
        lemma_value_bounds(d, p);
        if let Some((v, q)) = parse_value(d, p) {
            lemma_items_shifts(a, d, q, (n - 1) as nat);
        }
    }
}

/// Values parse alike wherever the bytes from their start stand.
pub proof fn lemma_stream_shifts(a: Seq<u8>, d: Seq<u8>, p: int)
    requires
        0 <= p <= d.len(),
    ensures
        parse_stream(a + d, a.len() + p) == (
            parse_stream(d, p).0,
            a.len() + parse_stream(d, p).1,
        ),
    decreases d.len() - p,
{
    lemma_value_shifts(a, d, p);
    lemma_value_bounds(d, p);
    lemma_value_bounds(a + d, a.len() + p);
    if let Some((v, q)) = parse_value(d, p) {
        lemma_stream_shifts(a, d, q);
    }
}

/// The bytes of two texts in a row are the bytes of each, in a row.
pub proof fn lemma_encode_concat(x: Seq<char>, y: Seq<char>)
    ensures
        encode_utf8(x + y) == encode_utf8(x) + encode_utf8(y),
    decreases x.len(),
{
    if x.len() == 0 {
        assert(x + y =~= y);
    } else {
        assert((x + y).drop_first() =~= x.drop_first() + y);
        lemma_encode_concat(x.drop_first(), y);
        assert((x + y)[0] == x[0]);
    }
}

/// Feeding the decoder text in two parts, the second after what the first
/// left, decodes what feeding it all at once does, in the same order, and
/// leaves the same text.
pub proof fn lemma_feed_in_two(t1: Seq<char>, t2: Seq<char>, kept: Seq<char>)
    requires
        encode_utf8(kept) == leftover(t1),
    ensures
        decoded(t1 + t2) == decoded(t1) + decoded(kept + t2),
        leftover(t1 + t2) == leftover(kept + t2),
{
    let b1 = encode_utf8(t1);
    let b2 = encode_utf8(t2);
    let bk = encode_utf8(kept);
    lemma_encode_concat(t1, t2);
    lemma_encode_concat(kept, t2);
    let whole = b1 + b2;
    let rest = bk + b2;
    assert(encode_utf8(t1 + t2) == whole);
    assert(encode_utf8(kept + t2) == rest);
    let k1 = parse_stream(b1, 0).1;
    lemma_stream_bounds(b1, 0);
    assert(bk == b1.subrange(k1, b1.len() as int));
    lemma_stream_extends(b1, b2, 0);
    let head = b1.subrange(0, k1);
    assert(whole =~= head + rest);
    lemma_stream_bounds(rest, 0);
    lemma_stream_shifts(head, rest, 0);
    assert(head.len() == k1);
    let k2 = parse_stream(rest, 0).1;
    assert(parse_stream(whole, k1) == (parse_stream(rest, 0).0, k1 + k2));
    assert(parse_stream(whole, 0).1 == k1 + k2);
    assert(whole.subrange(k1 + k2, whole.len() as int) =~= rest.subrange(k2, rest.len() as int));
}

/// Where the values end lies within the bytes.
pub proof fn lemma_stream_bounds(b: Seq<u8>, p: int)
    requires
        0 <= p <= b.len(),
    ensures
        p <= parse_stream(b, p).1 <= b.len(),
    decreases b.len() - p,
{
    lemma_value_bounds(b, p);
    if let Some((v, q)) = parse_value(b, p) {
        lemma_stream_bounds(b, q);
    }
}

/// A broken line has no proper end.
proof fn lemma_broken_has_no_end(b: Seq<u8>, s: int)
    ensures
        broken_line(b, s) ==> line_end(b, s) is None,
{
    if broken_line(b, s) && line_end(b, s) is Some {
        let e = line_end(b, s)->0;
        assert(is_line_end(b, s, e));
        let e2 = choose|e2: int|
            #[trigger] is_first_eol(b, s, e2) && (b[e2] == LF || (e2 + 1 < b.len() && b[e2 + 1]
                != LF));
        if e2 < e {
            assert(!is_eol_byte(b[e2]));
        } else if e2 > e {
            assert(!is_eol_byte(b[e]));
        }
    }
}

/// A value judged never to parse does not parse.
proof fn lemma_never_is_none(b: Seq<u8>, p: int)
    ensures
        never_parses(b, p) ==> parse_value(b, p) is None,
    decreases b.len() - p, 0int,
{
    lemma_broken_has_no_end(b, p + 1);
    if never_parses(b, p) && 0 <= p < b.len() && is_prefix(b[p]) && !broken_line(b, p + 1) {
        if let Some(e) = line_end(b, p + 1) {
            if b[p] == STAR {
                if let Some(n) = unsigned_of(b.subrange(p + 1, e)) {
                    lemma_items_never_are_none(b, e + 2, n);
                }
            }
        }
    }
}

proof fn lemma_items_never_are_none(b: Seq<u8>, p: int, n: nat)
    ensures
        items_never_parse(b, p, n) ==> parse_items(b, p, n) is None,
    decreases b.len() - p, n,
{
    if n > 0 {
        lemma_never_is_none(b, p);
        if let Some((v, q)) = parse_value(b, p) {
            if p < q <= b.len() {
                lemma_items_never_are_none(b, q, (n - 1) as nat);
            }
        }
    }
}

proof fn lemma_broken_extends(b: Seq<u8>, c: Seq<u8>, s: int)
    ensures
        broken_line(b, s) ==> broken_line(b + c, s),
{
    if broken_line(b, s) {
        let bc = b + c;
        let e = choose|e: int|
            #[trigger] is_first_eol(b, s, e) && (b[e] == LF || (e + 1 < b.len() && b[e + 1] != LF));
        assert(bc[e] == b[e]);
        assert forall|k: int| s <= k < e implies !is_eol_byte(#[trigger] bc[k]) by {
            assert(bc[k] == b[k]);
        }
        if e + 1 < b.len() {
            assert(bc[e + 1] == b[e + 1]);
        }
        assert(is_first_eol(bc, s, e));
    }
}

/// A value judged never to parse is judged so whatever bytes follow.
proof fn lemma_never_extends(b: Seq<u8>, c: Seq<u8>, p: int)
    ensures
        never_parses(b, p) ==> never_parses(b + c, p),
    decreases b.len() - p, 0int,
{
    let bc = b + c;
    lemma_broken_extends(b, c, p + 1);
    if never_parses(b, p) && !broken_line(bc, p + 1) {
        assert(bc[p] == b[p]);
        if is_prefix(b[p]) {
            let e = line_end(b, p + 1)->0;
            lemma_line_end_extends(b, c, p + 1);
            assert(is_line_end(b, p + 1, e));
            assert(bc.subrange(p + 1, e) =~= b.subrange(p + 1, e));
            if b[p] == DOLLAR {
                if let Some(n) = unsigned_of(b.subrange(p + 1, e)) {
                    let stop = e + 2 + n;
                    if stop < b.len() {
                        assert(bc[stop] == b[stop]);
                    }
                    if stop + 1 < b.len() {
                        assert(bc[stop + 1] == b[stop + 1]);
                    }
                }
            }
            if b[p] == STAR {
                if let Some(n) = unsigned_of(b.subrange(p + 1, e)) {
                    lemma_items_never_extend(b, c, e + 2, n);
                }
            }
        }
    }
}

proof fn lemma_items_never_extend(b: Seq<u8>, c: Seq<u8>, p: int, n: nat)
    ensures
        items_never_parse(b, p, n) ==> items_never_parse(b + c, p, n),
    decreases b.len() - p, n,
{
    if n > 0 && items_never_parse(b, p, n) {
        lemma_never_extends(b, c, p);
        if !never_parses(b, p) {
            let (v, q) = parse_value(b, p)->0;
            lemma_value_extends(b, c, p);
            lemma_value_bounds(b + c, p);
            lemma_items_never_extend(b, c, q, (n - 1) as nat);
        }
    }
}

/// A leftover judged never to parse does not parse, whatever bytes would
/// have followed it: dropping it loses no value.
pub proof fn lemma_never_parses_for_good(b: Seq<u8>, c: Seq<u8>)
    requires
        never_parses(b, 0),
    ensures
        parse_value(b + c, 0) is None,
{
    lemma_never_extends(b, c, 0);
    lemma_never_is_none(b + c, 0);
}

} // verus!
