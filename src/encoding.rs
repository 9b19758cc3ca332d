//! The encoding of values, and the decoding of what it gives.
use vstd::prelude::*;
use vstd::utf8::*;

use crate::incremental::{lemma_items_shifts, lemma_value_extends};
use crate::parser::{
    all_digits, digits_value, is_digit, is_eol_byte, is_line_end, line_end, parse_items,
    parse_value, signed_of, unsigned_of, Value, COLON, CR, DOLLAR, LF, MINUS, ONE, PLUS, STAR, ZERO,
};

verus! {

/// The line terminator.
pub open spec fn crlf() -> Seq<u8> {
    seq![CR, LF]
}

/// The decimal digits of `n`, most significant first, without leading zeros.
pub open spec fn decimal(n: nat) -> Seq<u8>
    decreases n,
{
    if n < 10 {
        seq![(ZERO + n) as u8]
    } else {
        decimal(n / 10).push((ZERO + n % 10) as u8)
    }
}

/// `n` in decimal, with a `-` when it is negative.
pub open spec fn signed_decimal(n: int) -> Seq<u8> {
    if n < 0 {
        seq![MINUS] + decimal((-n) as nat)
    } else {
        decimal(n as nat)
    }
}

/// The bytes that stand for value `v` on the wire.
pub open spec fn encode(v: Value) -> Seq<u8>
    decreases v,
{
    match v {
        Value::Null => seq![DOLLAR, MINUS, ONE] + crlf(),
        Value::SimpleString(t) => seq![PLUS] + encode_utf8(t) + crlf(),
        Value::Error(t) => seq![MINUS] + encode_utf8(t) + crlf(),
        Value::Integer(n) => seq![COLON] + signed_decimal(n) + crlf(),
        Value::Bulk(t) => seq![DOLLAR] + decimal(encode_utf8(t).len()) + crlf() + encode_utf8(t)
            + crlf(),
        Value::Array(items) => seq![STAR] + decimal(items.len()) + crlf() + encode_items(items),
    }
}

/// The encodings of `items`, one after the other.
pub open spec fn encode_items(items: Seq<Value>) -> Seq<u8>
    decreases items,
{
    if items.len() == 0 {
        seq![]
    } else {
        encode(items[0]) + encode_items(items.subrange(1, items.len() as int))
    }
}

/// A text without carriage return or line feed.
pub open spec fn is_one_line(t: Seq<char>) -> bool {
    forall|i: int| 0 <= i < t.len() ==> #[trigger] t[i] != '\r' && t[i] != '\n'
}

/// A value the wire can carry: line texts hold no line break, integers fit
/// in `i64`, lengths and counts in `u64`.
pub open spec fn encodable(v: Value) -> bool
    decreases v,
{
    match v {
        Value::Null => true,
        Value::SimpleString(t) => is_one_line(t),
        Value::Error(t) => is_one_line(t),
        Value::Integer(n) => i64::MIN <= n <= i64::MAX,
        Value::Bulk(t) => encode_utf8(t).len() <= u64::MAX,
        Value::Array(items) => items.len() <= u64::MAX && forall|i: int|
            0 <= i < items.len() ==> encodable(#[trigger] items[i]),
    }
}

proof fn lemma_decimal(n: nat)
    ensures
        all_digits(decimal(n)),
        digits_value(decimal(n)) == n,
    decreases n,
{
    let d = decimal(n);
    if n < 10 {
        assert(d.drop_last() =~= Seq::<u8>::empty());
        assert(d.last() == ZERO + n);
        assert(digits_value(d) == digits_value(d.drop_last()) * 10 + (d.last() - ZERO) as nat);
    } else {
        lemma_decimal(n / 10);
        assert(d.drop_last() =~= decimal(n / 10));
        assert(d.last() == ZERO + n % 10);
        assert(digits_value(d) == digits_value(d.drop_last()) * 10 + (d.last() - ZERO) as nat);
        assert(n == (n / 10) * 10 + n % 10) by (nonlinear_arith);
        assert forall|i: int| 0 <= i < d.len() implies is_digit(#[trigger] d[i]) by {
            if i < d.len() - 1 {
                assert(d[i] == decimal(n / 10)[i]);
            }
        }
    }
}

proof fn lemma_high_bytes(y: u8)
    ensures
        (0x80u8 | y) >= 0x80u8,
        (0xC0u8 | y) >= 0x80u8,
        (0xE0u8 | y) >= 0x80u8,
        (0xF0u8 | y) >= 0x80u8,
{
    assert((0x80u8 | y) >= 0x80u8) by (bit_vector);
    assert((0xC0u8 | y) >= 0x80u8) by (bit_vector);
    assert((0xE0u8 | y) >= 0x80u8) by (bit_vector);
    assert((0xF0u8 | y) >= 0x80u8) by (bit_vector);
}

/// A text without line breaks encodes to bytes without CR or LF.
proof fn lemma_one_line_bytes(t: Seq<char>)
    requires
        is_one_line(t),
    ensures
        forall|k: int| 0 <= k < encode_utf8(t).len() ==> !is_eol_byte(#[trigger] encode_utf8(t)[k]),
    decreases t.len(),
{
    if t.len() > 0 {
        let rest = t.drop_first();
        assert(is_one_line(rest)) by {
            assert forall|i: int| 0 <= i < rest.len() implies #[trigger] rest[i] != '\r' && rest[i]
                != '\n' by {
                assert(rest[i] == t[i + 1]);
            }
        }
        lemma_one_line_bytes(rest);
        let c = t[0] as u32;
        assert(t[0] != '\r' && t[0] != '\n');
        assert(('\r' as u32) == 13 && ('\n' as u32) == 10);
        char_u32_cast(t[0], c);
        assert(c != 13 && c != 10);
        let head = encode_scalar(c);
        assert forall|k: int| 0 <= k < head.len() implies !is_eol_byte(#[trigger] head[k]) by {
            if has_width_1_encoding(c) {
                assert((c & 0x7f) == c) by (bit_vector)
                    requires
                        c <= 0x7f,
                ;
            } else {
                lemma_high_bytes(((c >> 6) & 0x1F) as u8);
                lemma_high_bytes(((c >> 12) & 0x0F) as u8);
                lemma_high_bytes(((c >> 18) & 0x7) as u8);
                lemma_high_bytes((c & 0x3F) as u8);
                lemma_high_bytes(((c >> 6) & 0x3F) as u8);
                lemma_high_bytes(((c >> 12) & 0x3F) as u8);
            }
        }
        let all = encode_utf8(t);
        assert(all == head + encode_utf8(rest));
        assert forall|k: int| 0 <= k < all.len() implies !is_eol_byte(#[trigger] all[k]) by {
            if k < head.len() {
                assert(all[k] == head[k]);
            } else {
                assert(all[k] == encode_utf8(rest)[k - head.len()]);
            }
        }
    }
}

/// A line of `b` from `s` that holds no CR or LF and ends in CRLF at `e`.
proof fn lemma_line_end_at(b: Seq<u8>, s: int, e: int)
    requires
        is_line_end(b, s, e),
    ensures
        line_end(b, s) == Some(e),
{
    assert forall|e2: int| is_line_end(b, s, e2) implies e2 == e by {
        if e2 < e {
            assert(!is_eol_byte(b[e2]));
        } else if e2 > e {
            assert(!is_eol_byte(b[e]));
        }
    }
}

/// The line of `b` that holds `body` after a one-byte prefix ends right
/// after `body`.
proof fn lemma_header_line(b: Seq<u8>, prefix: u8, body: Seq<u8>, rest: Seq<u8>)
    requires
        b == seq![prefix] + body + crlf() + rest,
        forall|k: int| 0 <= k < body.len() ==> !is_eol_byte(#[trigger] body[k]),
    ensures
        line_end(b, 1) == Some(1 + body.len() as int),
        b.subrange(1, 1 + body.len() as int) == body,
        b[0] == prefix,
{
    let e = 1 + body.len() as int;
    assert(b[e] == CR);
    assert(b[e + 1] == LF);
    assert forall|k: int| 1 <= k < e implies !is_eol_byte(#[trigger] b[k]) by {
        assert(b[k] == body[k - 1]);
    }
    lemma_line_end_at(b, 1, e);
    assert(b.subrange(1, e) =~= body);
}

proof fn lemma_digits_one_line(n: nat)
    ensures
        forall|k: int| 0 <= k < decimal(n).len() ==> !is_eol_byte(#[trigger] decimal(n)[k]),
        decimal(n).len() > 0,
        decimal(n)[0] != MINUS,
        unsigned_of(decimal(n)) == if n <= u64::MAX {
            Some(n)
        } else {
            None::<nat>
        },
{
    lemma_decimal(n);
    let d = decimal(n);
    assert forall|k: int| 0 <= k < d.len() implies !is_eol_byte(#[trigger] d[k]) by {
        assert(is_digit(d[k]));
    }
    assert(is_digit(d[0]));
}

/// Decoding the encoding of a value gives the value back, and takes all of
/// its bytes, whatever follows them.
pub proof fn lemma_decode_encode(v: Value, rest: Seq<u8>)
    requires
        encodable(v),
    ensures
        parse_value(encode(v) + rest, 0) == Some((v, encode(v).len() as int)),
{
    lemma_decode_encode_alone(v);
    lemma_value_extends(encode(v), rest, 0);
}

proof fn lemma_decode_encode_alone(v: Value)
    requires
        encodable(v),
    ensures
        parse_value(encode(v), 0) == Some((v, encode(v).len() as int)),
    decreases v, 1int,
{
    match v {
        Value::Null => lemma_decode_null(),
        Value::SimpleString(t) => lemma_decode_line(v, t),
        Value::Error(t) => lemma_decode_line(v, t),
        Value::Integer(n) => lemma_decode_integer(n),
        Value::Bulk(t) => lemma_decode_bulk(t),
        Value::Array(items) => {
            let n = items.len();
            let b = encode(v);
            let body = encode_items(items);
            lemma_digits_one_line(n);
            lemma_header_line(b, STAR, decimal(n), body);
            let header = seq![STAR] + decimal(n) + crlf();
            assert(b =~= header + body);
            lemma_decode_items(items);
            lemma_items_shifts(header, body, 0, n);
        },
    }
}

proof fn lemma_decode_null()
    ensures
        parse_value(encode(Value::Null), 0) == Some((Value::Null, 5int)),
{
    let b = encode(Value::Null);
    assert(b =~= seq![DOLLAR] + seq![MINUS, ONE] + crlf() + seq![]);
    lemma_header_line(b, DOLLAR, seq![MINUS, ONE], seq![]);
}

proof fn lemma_decode_line(v: Value, t: Seq<char>)
    requires
        v == Value::SimpleString(t) || v == Value::Error(t),
        is_one_line(t),
    ensures
        parse_value(encode(v), 0) == Some((v, encode(v).len() as int)),
{
    let b = encode(v);
    lemma_one_line_bytes(t);
    if v is SimpleString {
        lemma_header_line(b, PLUS, encode_utf8(t), seq![]);
    } else {
        lemma_header_line(b, MINUS, encode_utf8(t), seq![]);
    }
    encode_utf8_decode_utf8(t);
}

proof fn lemma_decode_integer(n: int)
    requires
        i64::MIN <= n <= i64::MAX,
    ensures
        parse_value(encode(Value::Integer(n)), 0) == Some(
            (Value::Integer(n), encode(Value::Integer(n)).len() as int),
        ),
{
    let b = encode(Value::Integer(n));
    let body = signed_decimal(n);
    if n < 0 {
        lemma_digits_one_line((-n) as nat);
        let d = decimal((-n) as nat);
        assert forall|k: int| 0 <= k < body.len() implies !is_eol_byte(#[trigger] body[k]) by {
            if k > 0 {
                assert(body[k] == d[k - 1]);
            }
        }
        assert(body.subrange(1, body.len() as int) =~= d);
    } else {
        lemma_digits_one_line(n as nat);
    }
    lemma_header_line(b, COLON, body, seq![]);
    assert(signed_of(body) == Some(n));
}

proof fn lemma_decode_bulk(t: Seq<char>)
    requires
        encode_utf8(t).len() <= u64::MAX,
    ensures
        parse_value(encode(Value::Bulk(t)), 0) == Some(
            (Value::Bulk(t), encode(Value::Bulk(t)).len() as int),
        ),
{
    let b = encode(Value::Bulk(t));
    let data = encode_utf8(t);
    let n = data.len();
    lemma_digits_one_line(n);
    assert(b =~= seq![DOLLAR] + decimal(n) + crlf() + (data + crlf()));
    lemma_header_line(b, DOLLAR, decimal(n), data + crlf());
    let next = decimal(n).len() as int + 3;
    let stop = next + n as int;
    assert(decimal(n) != seq![MINUS, ONE]) by {
        if decimal(n) =~= seq![MINUS, ONE] {
            assert(decimal(n)[0] == MINUS);
        }
    }
    assert(b[stop] == CR);
    assert(b[stop + 1] == LF);
    assert(b.subrange(next, stop) =~= data);
    encode_utf8_decode_utf8(t);
}

proof fn lemma_decode_items(items: Seq<Value>)
    requires
        forall|i: int| 0 <= i < items.len() ==> encodable(#[trigger] items[i]),
    ensures
        parse_items(encode_items(items), 0, items.len()) == Some(
            (items, encode_items(items).len() as int),
        ),
    decreases items, 0int,
{
    if items.len() > 0 {
        let tail = items.subrange(1, items.len() as int);
        let first = encode(items[0]);
        let others = encode_items(tail);
        assert(encodable(items[0]));
        lemma_decode_encode_alone(items[0]);
        lemma_value_extends(first, others, 0);
        assert forall|i: int| 0 <= i < tail.len() implies encodable(#[trigger] tail[i]) by {
            assert(tail[i] == items[i + 1]);
        }
        lemma_decode_items(tail);
        lemma_items_shifts(first, others, 0, tail.len());
        assert(seq![items[0]] + tail =~= items);
    } else {
        assert(items =~= Seq::<Value>::empty());
    }
}

} // verus!
