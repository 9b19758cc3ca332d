//! Incremental decoder of the wire protocol.
//!
//! The buffer is text; the grammar is stated over its UTF-8 bytes, as the
//! protocol is. One value is, by its first byte:
//!
//! | prefix | form                        | value          |
//! |--------|-----------------------------|----------------|
//! | `+`    | `+<text>\r\n`               | `SimpleString` |
//! | `-`    | `-<text>\r\n`               | `Error`        |
//! | `:`    | `:<signed int>\r\n`         | `Integer`      |
//! | `$`    | `$-1\r\n`                   | `Null`         |
//! | `$`    | `$<len>\r\n<len bytes>\r\n` | `Bulk`         |
//! | `*`    | `*<count>\r\n<count values>`| `Array`        |
//!
//! A value that does not parse, whether it is cut short or malformed, is left
//! in the buffer.
use vstd::prelude::*;
use vstd::string::StringSliceAdditionalSpecFns;
use vstd::utf8::*;

verus! {

pub const CR: u8 = 13;

pub const LF: u8 = 10;

pub const PLUS: u8 = 43;

pub const MINUS: u8 = 45;

pub const COLON: u8 = 58;

pub const DOLLAR: u8 = 36;

pub const STAR: u8 = 42;

pub const ZERO: u8 = 48;

pub const NINE: u8 = 57;

pub const ONE: u8 = 49;

/// A decoded protocol value.
#[derive(Debug, PartialEq)]
pub enum Response {
    Null,
    SimpleString(String),
    Error(String),
    Integer(i64),
    Bulk(String),
    Array(Vec<Response>),
}

/// What a `Response` stands for: texts as characters, integers as `int`.
pub enum Value {
    Null,
    SimpleString(Seq<char>),
    Error(Seq<char>),
    Integer(int),
    Bulk(Seq<char>),
    Array(Seq<Value>),
}

impl View for Response {
    type V = Value;

    open spec fn view(&self) -> Value
        decreases self,
    {
        match self {
            Response::Null => Value::Null,
            Response::SimpleString(s) => Value::SimpleString(s@),
            Response::Error(s) => Value::Error(s@),
            Response::Integer(n) => Value::Integer(*n as int),
            Response::Bulk(s) => Value::Bulk(s@),
            Response::Array(items) => Value::Array(
                Seq::new(
                    items@.len(),
                    |i: int|
                        if 0 <= i < items@.len() {
                            items@[i].view()
                        } else {
                            Value::Null
                        },
                ),
            ),
        }
    }
}

/// The views of a sequence of responses.
pub open spec fn views(items: Seq<Response>) -> Seq<Value> {
    Seq::new(items.len(), |i: int| items[i]@)
}

/// Whether a byte may start a value.
pub open spec fn is_prefix(c: u8) -> bool {
    c == PLUS || c == MINUS || c == COLON || c == DOLLAR || c == STAR
}

pub open spec fn is_eol_byte(c: u8) -> bool {
    c == CR || c == LF
}

/// `e` ends the line that starts at `s`: the first CR or LF at or after `s`
/// is at `e`, and it is a CR followed by an LF.
pub open spec fn is_line_end(b: Seq<u8>, s: int, e: int) -> bool {
    &&& 0 <= s <= e
    &&& e + 1 < b.len()
    &&& b[e] == CR
    &&& b[e + 1] == LF
    &&& forall|k: int| s <= k < e ==> !is_eol_byte(#[trigger] b[k])
}

/// Where the line that starts at `s` ends, if it is complete and well formed.
pub open spec fn line_end(b: Seq<u8>, s: int) -> Option<int> {
    if exists|e: int| is_line_end(b, s, e) {
        Some(choose|e: int| is_line_end(b, s, e))
    } else {
        None
    }
}

pub open spec fn is_digit(c: u8) -> bool {
    ZERO <= c <= NINE
}

pub open spec fn all_digits(d: Seq<u8>) -> bool {
    d.len() > 0 && forall|i: int| 0 <= i < d.len() ==> is_digit(#[trigger] d[i])
}

/// The number that decimal digits spell.
pub open spec fn digits_value(d: Seq<u8>) -> nat
    decreases d.len(),
{
    if d.len() == 0 {
        0
    } else {
        digits_value(d.drop_last()) * 10 + (d.last() - ZERO) as nat
    }
}

/// An unsigned decimal: one or more digits, at most `u64::MAX`.
pub open spec fn unsigned_of(d: Seq<u8>) -> Option<nat> {
    if all_digits(d) && digits_value(d) <= u64::MAX {
        Some(digits_value(d))
    } else {
        None
    }
}

/// A signed decimal: an optional `-` and digits, within the range of `i64`.
pub open spec fn signed_of(d: Seq<u8>) -> Option<int> {
    if d.len() > 0 && d[0] == MINUS {
        match unsigned_of(d.subrange(1, d.len() as int)) {
            Some(m) => if m <= 0x8000_0000_0000_0000 {
                Some(-m)
            } else {
                None
            },
            None => None,
        }
    } else {
        match unsigned_of(d) {
            Some(m) => if m <= i64::MAX {
                Some(m as int)
            } else {
                None
            },
            None => None,
        }
    }
}

/// The value that starts at byte `p` of `b`, and where it ends.
pub open spec fn parse_value(b: Seq<u8>, p: int) -> Option<(Value, int)>
    decreases b.len() - p, 0int,
{
    if !(0 <= p < b.len()) || !is_prefix(b[p]) {
        None
    } else {
        match line_end(b, p + 1) {
            None => None,
            Some(e) => {
                let head = b.subrange(p + 1, e);
                let next = e + 2;
                if b[p] == PLUS {
                    Some((Value::SimpleString(decode_utf8(head)), next))
                } else if b[p] == MINUS {
                    Some((Value::Error(decode_utf8(head)), next))
                } else if b[p] == COLON {
                    match signed_of(head) {
                        Some(n) => Some((Value::Integer(n), next)),
                        None => None,
                    }
                } else if b[p] == DOLLAR {
                    if head =~= seq![MINUS, ONE] {
                        Some((Value::Null, next))
                    } else {
                        match unsigned_of(head) {
                            Some(n) => {
                                let stop = next + n;
                                if stop + 1 < b.len() && b[stop] == CR && b[stop + 1] == LF {
                                    Some(
                                        (
                                            Value::Bulk(decode_utf8(b.subrange(next, stop))),
                                            stop + 2,
                                        ),
                                    )
                                } else {
                                    None
                                }
                            },
                            None => None,
                        }
                    }
                } else {
                    match unsigned_of(head) {
                        Some(n) => match parse_items(b, next, n) {
                            Some((items, q)) => Some((Value::Array(items), q)),
                            None => None,
                        },
                        None => None,
                    }
                }
            },
        }
    }
}

/// `n` values in a row from byte `p`, and where the last one ends.
/// (A value always takes at least one byte; the bound on `q` only says so.)
pub open spec fn parse_items(b: Seq<u8>, p: int, n: nat) -> Option<(Seq<Value>, int)>
    decreases b.len() - p, n,
{
    if n == 0 {
        Some((seq![], p))
    } else {
        match parse_value(b, p) {
            Some((v, q)) => if p < q <= b.len() {
                match parse_items(b, q, (n - 1) as nat) {
                    Some((rest, r)) => Some((seq![v] + rest, r)),
                    None => None,
                }
            } else {
                None
            },
            None => None,
        }
    }
}

/// The first CR or LF at or after `s` is at `e`.
pub open spec fn is_first_eol(b: Seq<u8>, s: int, e: int) -> bool {
    &&& 0 <= s <= e < b.len()
    &&& is_eol_byte(b[e])
    &&& forall|k: int| s <= k < e ==> !is_eol_byte(#[trigger] b[k])
}

/// The line that starts at `s` is broken whatever follows: its first CR or
/// LF is a lone LF, or a CR followed by another byte than LF.
pub open spec fn broken_line(b: Seq<u8>, s: int) -> bool {
    exists|e: int|
        #[trigger] is_first_eol(b, s, e) && (b[e] == LF || (e + 1 < b.len() && b[e + 1] != LF))
}

/// The value that starts at byte `p` of `b` can never parse, whatever bytes
/// follow: its first byte starts no value, its first line is broken, its
/// header is not a number of the right kind, a bulk string is not followed
/// by CRLF where its length ends, or an element of an array can never parse.
pub open spec fn never_parses(b: Seq<u8>, p: int) -> bool
    decreases b.len() - p, 0int,
{
    if !(0 <= p < b.len()) {
        false
    } else if !is_prefix(b[p]) || broken_line(b, p + 1) {
        true
    } else {
        match line_end(b, p + 1) {
            None => false,
            Some(e) => {
                let head = b.subrange(p + 1, e);
                let next = e + 2;
                if b[p] == PLUS || b[p] == MINUS {
                    false
                } else if b[p] == COLON {
                    signed_of(head) is None
                } else if b[p] == DOLLAR {
                    if head =~= seq![MINUS, ONE] {
                        false
                    } else {
                        match unsigned_of(head) {
                            None => true,
                            Some(n) => {
                                let stop = next + n;
                                ||| (stop < b.len() && b[stop] != CR)
                                ||| (stop + 1 < b.len() && b[stop + 1] != LF)
                            },
                        }
                    }
                } else {
                    match unsigned_of(head) {
                        None => true,
                        Some(n) => items_never_parse(b, next, n),
                    }
                }
            },
        }
    }
}

/// Of `n` values in a row from byte `p`, one can never parse, and those
/// before it parse.
pub open spec fn items_never_parse(b: Seq<u8>, p: int, n: nat) -> bool
    decreases b.len() - p, n,
{
    if n == 0 {
        false
    } else if never_parses(b, p) {
        true
    } else {
        match parse_value(b, p) {
            Some((v, q)) => if p < q <= b.len() {
                items_never_parse(b, q, (n - 1) as nat)
            } else {
                false
            },
            None => false,
        }
    }
}

/// All the values that follow one another from byte `p`, and where the
/// first one that does not parse begins.
pub open spec fn parse_stream(b: Seq<u8>, p: int) -> (Seq<Value>, int)
    decreases b.len() - p,
{
    match parse_value(b, p) {
        Some((v, q)) => if p < q <= b.len() {
            let rest = parse_stream(b, q);
            (seq![v] + rest.0, rest.1)
        } else {
            (seq![], p)
        },
        None => (seq![], p),
    }
}

/// The byte after an ASCII byte of valid UTF-8 starts a character.
proof fn lemma_after_ascii(b: Seq<u8>, j: int)
    requires
        valid_utf8(b),
        0 <= j,
        j + 1 < b.len(),
        b[j] < 0x80,
    ensures
        !is_continuation_byte(b[j + 1]),
    decreases b.len(),
{
    let w = length_of_first_scalar(b);
    let rest = pop_first_scalar(b);
    assert(valid_first_scalar(b) && valid_utf8(rest));
    if j < w {
        assert(j == 0 && w == 1);
        assert(rest.len() > 0);
        assert(valid_first_scalar(rest));
        assert(rest[0] == b[j + 1]);
    } else {
        assert(rest[j - w] == b[j]);
        assert(rest[j - w + 1] == b[j + 1]);
        lemma_after_ascii(rest, j - w);
    }
}

/// In valid UTF-8, the end, a position that holds an ASCII byte, and a
/// position just after one are character boundaries.
proof fn lemma_ascii_boundary(b: Seq<u8>, i: int)
    requires
        valid_utf8(b),
        0 <= i <= b.len(),
        i == b.len() || b[i] < 0x80 || (i > 0 && b[i - 1] < 0x80),
    ensures
        is_char_boundary(b, i),
{
    if i == b.len() {
        is_char_boundary_start_end_of_seq(b);
    } else {
        if b[i] >= 0x80 {
            lemma_after_ascii(b, i - 1);
        }
        is_char_boundary_iff_not_is_continuation_byte(b, i);
    }
}

/// The text held by bytes `a..c` of `s`, both character boundaries.
fn text_between(s: &str, a: usize, c: usize) -> (r: String)
    requires
        a <= c <= s.spec_bytes().len(),
        is_char_boundary(s.spec_bytes(), a as int),
        is_char_boundary(s.spec_bytes(), c as int),
    ensures
        r@ == decode_utf8(s.spec_bytes().subrange(a as int, c as int)),
{
    let ghost b = s.spec_bytes();
    proof {
        encode_utf8_valid_utf8(s@);
        valid_utf8_split(b, c as int);
        let x = b.subrange(0, c as int);
        if a < c {
            assert(x[a as int] == b[a as int]);
            is_char_boundary_iff_not_is_continuation_byte(b, a as int);
            is_char_boundary_iff_not_is_continuation_byte(x, a as int);
        } else {
            is_char_boundary_start_end_of_seq(x);
        }
    }
    let (head, _) = s.split_at(c);
    let (_, mid) = head.split_at(a);
    proof {
        assert(mid.spec_bytes() =~= b.subrange(a as int, c as int));
        encode_utf8_decode_utf8(mid@);
    }
    mid.to_owned()
}

/// Where the line that starts at `s` ends, if it is complete.
fn find_line_end(b: &[u8], s: usize) -> (r: Option<usize>)
    requires
        s <= b@.len(),
    ensures
        match r {
            Some(e) => line_end(b@, s as int) == Some(e as int),
            None => line_end(b@, s as int) is None,
        },
{
    let mut i = s;
    while i < b.len() && b[i] != CR && b[i] != LF
        invariant
            s <= i <= b@.len(),
            forall|k: int| s <= k < i ==> !is_eol_byte(#[trigger] b@[k]),
        decreases b@.len() - i,
    {
        i += 1;
    }
    if b.len() - i > 1 && b[i] == CR && b[i + 1] == LF {
        assert(is_line_end(b@, s as int, i as int));
        assert forall|e: int| is_line_end(b@, s as int, e) implies e == i by {
            if e < i {
                assert(!is_eol_byte(b@[e]));
            } else if e > i {
                assert(!is_eol_byte(b@[i as int]));
            }
        }
        Some(i)
    } else {
        assert forall|e: int| !is_line_end(b@, s as int, e) by {
            if is_line_end(b@, s as int, e) {
                if e < i {
                    assert(!is_eol_byte(b@[e]));
                } else if e > i {
                    assert(!is_eol_byte(b@[i as int]));
                }
            }
        }
        None
    }
}

proof fn lemma_digits_prefix(d: Seq<u8>, k: int)
    requires
        0 <= k <= d.len(),
    ensures
        digits_value(d.subrange(0, k)) <= digits_value(d),
    decreases d.len(),
{
    if k < d.len() {
        assert(d.drop_last().subrange(0, k) =~= d.subrange(0, k));
        lemma_digits_prefix(d.drop_last(), k);
    } else {
        assert(d.subrange(0, k) =~= d);
    }
}

/// The unsigned decimal held by bytes `a..c`.
fn read_unsigned(b: &[u8], a: usize, c: usize) -> (r: Option<u64>)
    requires
        a <= c <= b@.len(),
    ensures
        match r {
            Some(v) => unsigned_of(b@.subrange(a as int, c as int)) == Some(v as nat),
            None => unsigned_of(b@.subrange(a as int, c as int)) is None,
        },
{
    let ghost d = b@.subrange(a as int, c as int);
    if a == c {
        return None;
    }
    let mut v: u64 = 0;
    let mut i = a;
    while i < c
        invariant
            a <= i <= c <= b@.len(),
            d == b@.subrange(a as int, c as int),
            forall|k: int| a <= k < i ==> is_digit(#[trigger] b@[k]),
            v as nat == digits_value(b@.subrange(a as int, i as int)),
        decreases c - i,
    {
        let x = b[i];
        if x < ZERO || x > NINE {
            assert(!is_digit(d[i - a]));
            return None;
        }
        let digit = (x - ZERO) as u64;
        let ghost next = b@.subrange(a as int, i + 1);
        assert(next.drop_last() =~= b@.subrange(a as int, i as int));
        if v > (u64::MAX - digit) / 10 {
            assert(v * 10 + digit > u64::MAX) by (nonlinear_arith)
                requires
                    v > (u64::MAX - digit) / 10,
                    digit <= 9,
            ;
            proof {
                assert(d.subrange(0, i + 1 - a) =~= next);
                lemma_digits_prefix(d, i + 1 - a);
            }
            return None;
        }
        assert(v * 10 + digit <= u64::MAX) by (nonlinear_arith)
            requires
                v <= (u64::MAX - digit) / 10,
                digit <= 9,
        ;
        v = v * 10 + digit;
        i += 1;
    }
    assert(b@.subrange(a as int, i as int) =~= d);
    assert(all_digits(d)) by {
        assert forall|k: int| 0 <= k < d.len() implies is_digit(#[trigger] d[k]) by {
            assert(d[k] == b@[a + k]);
        }
    }
    Some(v)
}

/// The signed decimal held by bytes `a..c`.
fn read_signed(b: &[u8], a: usize, c: usize) -> (r: Option<i64>)
    requires
        a <= c <= b@.len(),
    ensures
        match r {
            Some(v) => signed_of(b@.subrange(a as int, c as int)) == Some(v as int),
            None => signed_of(b@.subrange(a as int, c as int)) is None,
        },
{
    let ghost d = b@.subrange(a as int, c as int);
    if a < c && b[a] == MINUS {
        assert(d.subrange(1, d.len() as int) =~= b@.subrange(a + 1, c as int));
        match read_unsigned(b, a + 1, c) {
            Some(m) => {
                if m < 0x8000_0000_0000_0000 {
                    Some(-(m as i64))
                } else if m == 0x8000_0000_0000_0000 {
                    Some(i64::MIN)
                } else {
                    None
                }
            },
            None => None,
        }
    } else {
        match read_unsigned(b, a, c) {
            Some(m) => {
                if m <= i64::MAX as u64 {
                    Some(m as i64)
                } else {
                    None
                }
            },
            None => None,
        }
    }
}

/// The value that starts at byte `p` of `s`, and where it ends.
fn parse_at(s: &str, b: &[u8], p: usize) -> (r: Option<(Response, usize)>)
    requires
        b@ == s.spec_bytes(),
        p <= b@.len(),
    ensures
        match r {
            Some((v, q)) => {
                &&& parse_value(b@, p as int) == Some((v@, q as int))
                &&& p < q <= b@.len()
                &&& b@[q - 1] == LF
            },
            None => parse_value(b@, p as int) is None,
        },
    decreases b@.len() - p,
{
    if p >= b.len() {
        return None;
    }
    let c = b[p];
    if !(c == PLUS || c == MINUS || c == COLON || c == DOLLAR || c == STAR) {
        return None;
    }
    let e = match find_line_end(b, p + 1) {
        Some(e) => e,
        None => return None,
    };
    assert(is_line_end(b@, p + 1, e as int));
    let next = e + 2;
    proof {
        encode_utf8_valid_utf8(s@);
    }
    if c == PLUS || c == MINUS {
        proof {
            lemma_ascii_boundary(b@, p + 1);
            lemma_ascii_boundary(b@, e as int);
        }
        let text = text_between(s, p + 1, e);
        if c == PLUS {
            Some((Response::SimpleString(text), next))
        } else {
            Some((Response::Error(text), next))
        }
    } else if c == COLON {
        match read_signed(b, p + 1, e) {
            Some(n) => Some((Response::Integer(n), next)),
            None => None,
        }
    } else if c == DOLLAR {
        let ghost head = b@.subrange(p + 1, e as int);
        if e - p == 3 && b[p + 1] == MINUS && b[p + 2] == ONE {
            assert(head =~= seq![MINUS, ONE]);
            return Some((Response::Null, next));
        }
        assert(!(head =~= seq![MINUS, ONE])) by {
            if head =~= seq![MINUS, ONE] {
                assert(head[0] == b@[p + 1]);
                assert(head[1] == b@[p + 2]);
            }
        }
        let n = match read_unsigned(b, p + 1, e) {
            Some(n) => n,
            None => return None,
        };
        let room = b.len() - next;
        if room < 2 || n > (room - 2) as u64 {
            return None;
        }
        let stop = next + n as usize;
        if b[stop] != CR || b[stop + 1] != LF {
            return None;
        }
        proof {
            lemma_ascii_boundary(b@, next as int);
            lemma_ascii_boundary(b@, stop as int);
        }
        let text = text_between(s, next, stop);
        Some((Response::Bulk(text), stop + 2))
    } else {
        let n = match read_unsigned(b, p + 1, e) {
            Some(n) => n,
            None => return None,
        };
        let mut items: Vec<Response> = Vec::new();
        let mut q = next;
        let mut k: u64 = 0;
        while k < n
            invariant
                b@ == s.spec_bytes(),
                p < next <= q <= b@.len(),
                next == e + 2,
                b@[p as int] == STAR,
                line_end(b@, p + 1) == Some(e as int),
                unsigned_of(b@.subrange(p + 1, e as int)) == Some(n as nat),
                b@[q - 1] == LF,
                k <= n,
                parse_items(b@, next as int, n as nat) == match parse_items(
                    b@,
                    q as int,
                    (n - k) as nat,
                ) {
                    Some((rest, end)) => Some((views(items@) + rest, end)),
                    None => None,
                },
            decreases n - k,
        {
            match parse_at(s, b, q) {
                Some((v, q2)) => {
                    let ghost before = items@;
                    items.push(v);
                    assert(views(items@) =~= views(before) + seq![v@]);
                    let ghost rest = parse_items(b@, q2 as int, (n - k - 1) as nat);
                    proof {
                        if let Some((tail, _)) = rest {
                            assert(views(before) + (seq![v@] + tail) =~= views(items@) + tail);
                        }
                    }
                    q = q2;
                    k = k + 1;
                },
                None => {
                    assert(parse_items(b@, q as int, (n - k) as nat) is None);
                    assert(parse_items(b@, next as int, n as nat) is None);
                    return None;
                },
            }
        }
        let ghost seen = views(items@);
        let r = Response::Array(items);
        assert(seen + seq![] =~= seen);
        assert(r@ matches Value::Array(vs) && vs =~= seen);
        Some((r, q))
    }
}

/// A length of `-1` is accepted only after `$`, where it stands for `Null`.
pub proof fn lemma_minus_one_length(b: Seq<u8>)
    requires
        b.len() >= 5,
        b[0] == DOLLAR || b[0] == STAR,
        b.subrange(1, 5) == seq![MINUS, ONE, CR, LF],
    ensures
        parse_value(b, 0) == if b[0] == DOLLAR {
            Some((Value::Null, 5int))
        } else {
            None::<(Value, int)>
        },
{
    assert(b[1] == MINUS && b[2] == ONE && b[3] == CR && b[4] == LF) by {
        assert(b.subrange(1, 5)[0] == b[1]);
        assert(b.subrange(1, 5)[1] == b[2]);
        assert(b.subrange(1, 5)[2] == b[3]);
        assert(b.subrange(1, 5)[3] == b[4]);
    }
    assert(is_line_end(b, 1, 3));
    assert forall|e: int| is_line_end(b, 1, e) implies e == 3 by {
        if e > 3 {
            assert(!is_eol_byte(b[3]));
        }
    }
    let head = b.subrange(1, 3);
    assert(head =~= seq![MINUS, ONE]);
    assert(!is_digit(head[0]));
    assert(unsigned_of(head) is None);
}

/// Whether the line that starts at `s` is broken whatever follows.
fn line_is_broken(b: &[u8], s: usize) -> (r: bool)
    requires
        s <= b@.len(),
    ensures
        r == broken_line(b@, s as int),
{
    let mut i = s;
    while i < b.len() && b[i] != CR && b[i] != LF
        invariant
            s <= i <= b@.len(),
            forall|k: int| s <= k < i ==> !is_eol_byte(#[trigger] b@[k]),
        decreases b@.len() - i,
    {
        i += 1;
    }
    assert forall|e: int| #[trigger] is_first_eol(b@, s as int, e) implies e == i by {
        if e < i {
            assert(!is_eol_byte(b@[e]));
        } else if e > i {
            assert(!is_eol_byte(b@[i as int]));
        }
    }
    if i < b.len() && (b[i] == LF || (b.len() - i > 1 && b[i + 1] != LF)) {
        assert(is_first_eol(b@, s as int, i as int));
        true
    } else {
        false
    }
}

/// Whether the value that starts at byte `p` of `s` can never parse.
pub(crate) fn can_never_parse(s: &str, b: &[u8], p: usize) -> (r: bool)
    requires
        b@ == s.spec_bytes(),
        p <= b@.len(),
    ensures
        r == never_parses(b@, p as int),
    decreases b@.len() - p,
{
    if p >= b.len() {
        return false;
    }
    let c = b[p];
    if !(c == PLUS || c == MINUS || c == COLON || c == DOLLAR || c == STAR) {
        return true;
    }
    if line_is_broken(b, p + 1) {
        return true;
    }
    let e = match find_line_end(b, p + 1) {
        Some(e) => e,
        None => return false,
    };
    assert(is_line_end(b@, p + 1, e as int));
    let next = e + 2;
    if c == PLUS || c == MINUS {
        return false;
    }
    if c == COLON {
        return match read_signed(b, p + 1, e) {
            Some(_) => false,
            None => true,
        };
    }
    if c == DOLLAR {
        let ghost head = b@.subrange(p + 1, e as int);
        if e - p == 3 && b[p + 1] == MINUS && b[p + 2] == ONE {
            assert(head =~= seq![MINUS, ONE]);
            return false;
        }
        assert(!(head =~= seq![MINUS, ONE])) by {
            if head =~= seq![MINUS, ONE] {
                assert(head[0] == b@[p + 1]);
                assert(head[1] == b@[p + 2]);
            }
        }
        let n = match read_unsigned(b, p + 1, e) {
            Some(n) => n,
            None => return true,
        };
        let room = b.len() - next;
        if n < room as u64 {
            let stop = next + n as usize;
            if b[stop] != CR {
                return true;
            }
            if b.len() - stop > 1 && b[stop + 1] != LF {
                return true;
            }
        }
        return false;
    }
    let n = match read_unsigned(b, p + 1, e) {
        Some(n) => n,
        None => return true,
    };
    let mut q = next;
    let mut k: u64 = 0;
    while k < n
        invariant
            b@ == s.spec_bytes(),
            p < next <= q <= b@.len(),
            next == e + 2,
            b@[p as int] == STAR,
            !broken_line(b@, p + 1),
            line_end(b@, p + 1) == Some(e as int),
            unsigned_of(b@.subrange(p + 1, e as int)) == Some(n as nat),
            k <= n,
            items_never_parse(b@, next as int, n as nat) == items_never_parse(
                b@,
                q as int,
                (n - k) as nat,
            ),
        decreases n - k,
    {
        if can_never_parse(s, b, q) {
            return true;
        }
        match parse_at(s, b, q) {
            Some((_, q2)) => {
                q = q2;
                k = k + 1;
            },
            None => {
                return false;
            },
        }
    }
    false
}

/// The first value of `input`, and the text that follows it.
pub fn parse_response<'a>(input: &'a str) -> (r: Option<(&'a str, Response)>)
    ensures
        match parse_value(input.spec_bytes(), 0) {
            Some((v, q)) => r matches Some((rest, x)) && x@ == v && rest.spec_bytes()
                == input.spec_bytes().subrange(q, input.spec_bytes().len() as int),
            None => r is None,
        },
{
    let b = input.as_bytes();
    match parse_at(input, b, 0) {
        Some((v, q)) => {
            proof {
                encode_utf8_valid_utf8(input@);
                lemma_ascii_boundary(b@, q as int);
            }
            let (_, rest) = input.split_at(q);
            Some((rest, v))
        },
        None => None,
    }
}

/// The values decoded from the front of text `t`.
pub open spec fn decoded(t: Seq<char>) -> Seq<Value> {
    parse_stream(encode_utf8(t), 0).0
}

/// The bytes of text `t` that are left after its decoded values.
pub open spec fn leftover(t: Seq<char>) -> Seq<u8> {
    let b = encode_utf8(t);
    b.subrange(parse_stream(b, 0).1, b.len() as int)
}

/// The complete values at the front of `s`, and the text after them.
fn split_values(s: &str) -> (r: (Vec<Response>, String))
    ensures
        views(r.0@) == decoded(s@),
        encode_utf8(r.1@) == leftover(s@),
{
    let b = s.as_bytes();
    let ghost bytes = b@;
    let mut out: Vec<Response> = Vec::new();
    let mut p: usize = 0;
    loop
        invariant
            b@ == s.spec_bytes(),
            bytes == b@,
            p <= b@.len(),
            p == 0 || b@[p - 1] == LF,
            parse_stream(bytes, 0) == (
                views(out@) + parse_stream(bytes, p as int).0,
                parse_stream(bytes, p as int).1,
            ),
        ensures
            p <= b@.len(),
            p == 0 || b@[p - 1] == LF,
            parse_stream(bytes, 0) == (views(out@), p as int),
        decreases b@.len() - p,
    {
        match parse_at(s, b, p) {
            Some((v, q)) => {
                let ghost before = out@;
                out.push(v);
                assert(views(out@) =~= views(before) + seq![v@]);
                assert(views(before) + (seq![v@] + parse_stream(bytes, q as int).0)
                    =~= views(out@) + parse_stream(bytes, q as int).0);
                p = q;
            },
            None => {
                assert(views(out@) + seq![] =~= views(out@));
                break ;
            },
        }
    }
    proof {
        encode_utf8_valid_utf8(s@);
        if p == 0 {
            is_char_boundary_start_end_of_seq(b@);
        } else {
            lemma_ascii_boundary(b@, p as int);
        }
    }
    let (_, rest) = s.split_at(p);
    (out, rest.to_owned())
}

/// Takes every complete value from the front of `input`, in order, and
/// leaves the rest there for a later call.
pub fn parse(input: &mut String) -> (r: Vec<Response>)
    ensures
        views(r@) == decoded(old(input)@),
        encode_utf8(final(input)@) == leftover(old(input)@),
{
    let (values, rest) = split_values(input.as_str());
    *input = rest;
    values
}

} // verus!
