//! A small JSON model on bytes: values, a canonical serializer, and a
//! recursive-descent parser, all specified against mathematical sequences.

use vstd::prelude::*;

verus! {

/// Mathematical model of a JSON value. Strings are byte sequences (the raw,
/// unescaped UTF-8 contents); numbers are integers.
pub ghost enum JsonVal {
    Null,
    Bool(bool),
    Int(int),
    Str(Seq<u8>),
    Arr(Seq<JsonVal>),
    Obj(Seq<(Seq<u8>, JsonVal)>),
}

/// Executable JSON value. Object members keep their wire order.
#[derive(Debug, PartialEq, Eq)]
pub enum JsonValue {
    Null,
    Bool(bool),
    Int(i64),
    Str(Vec<u8>),
    Arr(Vec<JsonValue>),
    Obj(Vec<(Vec<u8>, JsonValue)>),
}

/// View of a suffix of an array's elements, element by element.
pub open spec fn arr_suffix_view(es: Vec<JsonValue>, i: int) -> Seq<JsonVal>
    decreases es, es@.len() - i,
{
    if i < 0 || i >= es@.len() {
        Seq::empty()
    } else {
        seq![es@[i]@] + arr_suffix_view(es, i + 1)
    }
}

/// View of a suffix of an object's members, member by member.
pub open spec fn obj_suffix_view(ms: Vec<(Vec<u8>, JsonValue)>, i: int) -> Seq<(Seq<u8>, JsonVal)>
    decreases ms, ms@.len() - i,
{
    if i < 0 || i >= ms@.len() {
        Seq::empty()
    } else {
        seq![(ms@[i].0@, ms@[i].1@)] + obj_suffix_view(ms, i + 1)
    }
}

impl View for JsonValue {
    type V = JsonVal;

    open spec fn view(&self) -> JsonVal
        decreases self,
    {
        match self {
            JsonValue::Null => JsonVal::Null,
            JsonValue::Bool(b) => JsonVal::Bool(*b),
            JsonValue::Int(i) => JsonVal::Int(*i as int),
            JsonValue::Str(s) => JsonVal::Str(s@),
            JsonValue::Arr(es) => JsonVal::Arr(arr_suffix_view(*es, 0)),
            JsonValue::Obj(ms) => JsonVal::Obj(obj_suffix_view(*ms, 0)),
        }
    }
}

/// The suffix views agree pointwise with the element views.
pub proof fn lemma_arr_suffix_view(es: Vec<JsonValue>, i: int)
    requires
        0 <= i <= es@.len(),
    ensures
        arr_suffix_view(es, i).len() == es@.len() - i,
        forall|k: int|
            0 <= k < es@.len() - i ==> arr_suffix_view(es, i)[k] == es@[i + k]@,
    decreases es@.len() - i,
{
    if i < es@.len() {
        lemma_arr_suffix_view(es, i + 1);
        assert(arr_suffix_view(es, i) == seq![es@[i]@] + arr_suffix_view(es, i + 1));
        assert forall|k: int| 0 <= k < es@.len() - i implies arr_suffix_view(es, i)[k] == es@[
            i + k
        ]@ by {
            if k > 0 {
                assert(arr_suffix_view(es, i)[k] == arr_suffix_view(es, i + 1)[k - 1]);
            }
        }
    }
}

/// The suffix views agree pointwise with the member views.
pub proof fn lemma_obj_suffix_view(ms: Vec<(Vec<u8>, JsonValue)>, i: int)
    requires
        0 <= i <= ms@.len(),
    ensures
        obj_suffix_view(ms, i).len() == ms@.len() - i,
        forall|k: int|
            0 <= k < ms@.len() - i ==> obj_suffix_view(ms, i)[k] == (
                ms@[i + k].0@,
                ms@[i + k].1@,
            ),
    decreases ms@.len() - i,
{
    if i < ms@.len() {
        lemma_obj_suffix_view(ms, i + 1);
        assert(obj_suffix_view(ms, i) == seq![(ms@[i].0@, ms@[i].1@)] + obj_suffix_view(
            ms,
            i + 1,
        ));
        assert forall|k: int| 0 <= k < ms@.len() - i implies obj_suffix_view(ms, i)[k] == (
            ms@[i + k].0@,
            ms@[i + k].1@,
        ) by {
            if k > 0 {
                assert(obj_suffix_view(ms, i)[k] == obj_suffix_view(ms, i + 1)[k - 1]);
            }
        }
    }
}

/// Hexadecimal digit for a value below 16, lower case.
pub open spec fn hex_digit(n: int) -> u8 {
    if n < 10 {
        (0x30 + n) as u8
    } else {
        (0x57 + n) as u8
    }
}

/// How one string byte is rendered inside a JSON string literal.
pub open spec fn esc(b: u8) -> Seq<u8> {
    if b == 0x22 {
        seq![0x5c, 0x22]
    } else if b == 0x5c {
        seq![0x5c, 0x5c]
    } else if b == 0x0a {
        seq![0x5c, 0x6e]
    } else if b == 0x09 {
        seq![0x5c, 0x74]
    } else if b == 0x0d {
        seq![0x5c, 0x72]
    } else if b == 0x08 {
        seq![0x5c, 0x62]
    } else if b == 0x0c {
        seq![0x5c, 0x66]
    } else if b < 0x20 {
        seq![0x5c, 0x75, 0x30, 0x30, hex_digit(b as int / 16), hex_digit(b as int % 16)]
    } else {
        seq![b]
    }
}

/// Rendering of the string bytes from index `i` on.
pub open spec fn esc_from(s: Seq<u8>, i: int) -> Seq<u8>
    decreases s.len() - i,
{
    if i < 0 || i >= s.len() {
        Seq::empty()
    } else {
        esc(s[i]) + esc_from(s, i + 1)
    }
}

/// Decimal digits of a non-negative integer.
pub open spec fn dec_of(n: int) -> Seq<u8>
    decreases n,
{
    if n < 10 {
        seq![(0x30 + if n >= 0 { n } else { 0 }) as u8]
    } else {
        dec_of(n / 10) + seq![(0x30 + n % 10) as u8]
    }
}

/// Decimal rendering of an integer, with a leading minus sign if negative.
pub open spec fn ser_int(i: int) -> Seq<u8> {
    if i < 0 {
        seq![0x2d] + dec_of(-i)
    } else {
        dec_of(i)
    }
}

/// Rendering of a JSON string literal, quotes included.
pub open spec fn ser_str(s: Seq<u8>) -> Seq<u8> {
    seq![0x22] + esc_from(s, 0) + seq![0x22]
}

/// Canonical serialization of a JSON value: no whitespace, object members
/// in their stored order.
pub open spec fn ser_val(v: JsonVal) -> Seq<u8>
    decreases v,
{
    match v {
        JsonVal::Null => seq![0x6e, 0x75, 0x6c, 0x6c],
        JsonVal::Bool(b) => if b {
            seq![0x74, 0x72, 0x75, 0x65]
        } else {
            seq![0x66, 0x61, 0x6c, 0x73, 0x65]
        },
        JsonVal::Int(i) => ser_int(i),
        JsonVal::Str(s) => ser_str(s),
        JsonVal::Arr(es) => seq![0x5b] + ser_items(es, 0) + seq![0x5d],
        JsonVal::Obj(ms) => seq![0x7b] + ser_members(ms, 0) + seq![0x7d],
    }
}

/// Comma-separated serialization of the array elements from index `i` on.
pub open spec fn ser_items(es: Seq<JsonVal>, i: int) -> Seq<u8>
    decreases es, es.len() - i,
{
    if i < 0 || i >= es.len() {
        Seq::empty()
    } else if i == es.len() - 1 {
        ser_val(es[i])
    } else {
        ser_val(es[i]) + seq![0x2c] + ser_items(es, i + 1)
    }
}

/// Comma-separated serialization of the object members from index `i` on.
pub open spec fn ser_members(ms: Seq<(Seq<u8>, JsonVal)>, i: int) -> Seq<u8>
    decreases ms, ms.len() - i,
{
    if i < 0 || i >= ms.len() {
        Seq::empty()
    } else if i == ms.len() - 1 {
        ser_str(ms[i].0) + seq![0x3a] + ser_val(ms[i].1)
    } else {
        ser_str(ms[i].0) + seq![0x3a] + ser_val(ms[i].1) + seq![0x2c] + ser_members(ms, i + 1)
    }
}

/// Appends the decimal digits of `n`.
pub(crate) fn write_u64(out: &mut Vec<u8>, n: u64)
    ensures
        final(out)@ == old(out)@ + dec_of(n as int),
    decreases n,
{
    if n < 10 {
        out.push(0x30 + n as u8);
        assert(out@ =~= old(out)@ + dec_of(n as int));
    } else {
        write_u64(out, n / 10);
        out.push(0x30 + (n % 10) as u8);
        assert(out@ =~= old(out)@ + dec_of(n as int));
    }
}

/// Appends the decimal rendering of `n`, minus sign included.
fn write_i64(out: &mut Vec<u8>, n: i64)
    ensures
        final(out)@ == old(out)@ + ser_int(n as int),
{
    if n >= 0 {
        write_u64(out, n as u64);
    } else {
        out.push(0x2d);
        let mag: u64 = (-(n + 1)) as u64 + 1;
        assert(mag as int == -(n as int));
        write_u64(out, mag);
        assert(out@ =~= old(out)@ + ser_int(n as int));
    }
}

/// Appends the rendering of one string byte.
fn write_esc_byte(out: &mut Vec<u8>, b: u8)
    ensures
        final(out)@ == old(out)@ + esc(b),
{
    if b == 0x22 || b == 0x5c {
        out.push(0x5c);
        out.push(b);
    } else if b == 0x0a {
        out.push(0x5c);
        out.push(0x6e);
    } else if b == 0x09 {
        out.push(0x5c);
        out.push(0x74);
    } else if b == 0x0d {
        out.push(0x5c);
        out.push(0x72);
    } else if b == 0x08 {
        out.push(0x5c);
        out.push(0x62);
    } else if b == 0x0c {
        out.push(0x5c);
        out.push(0x66);
    } else if b < 0x20 {
        out.push(0x5c);
        out.push(0x75);
        out.push(0x30);
        out.push(0x30);
        out.push(if b / 16 < 10 {
            0x30 + b / 16
        } else {
            0x57 + b / 16
        });
        out.push(if b % 16 < 10 {
            0x30 + b % 16
        } else {
            0x57 + b % 16
        });
    } else {
        out.push(b);
    }
    assert(out@ =~= old(out)@ + esc(b));
}

/// Appends the rendering of the string bytes from index `i` on.
fn write_esc_from(out: &mut Vec<u8>, s: &Vec<u8>, i: usize)
    ensures
        final(out)@ == old(out)@ + esc_from(s@, i as int),
    decreases s@.len() - i,
{
    if i < s.len() {
        write_esc_byte(out, s[i]);
        write_esc_from(out, s, i + 1);
        assert(out@ =~= old(out)@ + esc_from(s@, i as int));
    }
}

/// Appends a JSON string literal holding the bytes of `s`.
pub(crate) fn write_str(out: &mut Vec<u8>, s: &Vec<u8>)
    ensures
        final(out)@ == old(out)@ + ser_str(s@),
{
    out.push(0x22);
    write_esc_from(out, s, 0);
    out.push(0x22);
    assert(out@ =~= old(out)@ + ser_str(s@));
}

/// Appends the canonical serialization of `v`.
pub fn write_val(out: &mut Vec<u8>, v: &JsonValue)
    ensures
        final(out)@ == old(out)@ + ser_val(v@),
    decreases v,
{
    match v {
        JsonValue::Null => {
            out.push(0x6e);
            out.push(0x75);
            out.push(0x6c);
            out.push(0x6c);
            assert(out@ =~= old(out)@ + ser_val(v@));
        },
        JsonValue::Bool(b) => {
            if *b {
                out.push(0x74);
                out.push(0x72);
                out.push(0x75);
                out.push(0x65);
            } else {
                out.push(0x66);
                out.push(0x61);
                out.push(0x6c);
                out.push(0x73);
                out.push(0x65);
            }
            assert(out@ =~= old(out)@ + ser_val(v@));
        },
        JsonValue::Int(i) => {
            write_i64(out, *i);
        },
        JsonValue::Str(s) => {
            write_str(out, s);
        },
        JsonValue::Arr(es) => {
            out.push(0x5b);
            write_items(out, es, 0);
            out.push(0x5d);
            proof {
                lemma_arr_suffix_view(*es, 0);
                assert(out@ =~= old(out)@ + ser_val(v@));
            }
        },
        JsonValue::Obj(ms) => {
            out.push(0x7b);
            write_members(out, ms, 0);
            out.push(0x7d);
            proof {
                lemma_obj_suffix_view(*ms, 0);
                assert(out@ =~= old(out)@ + ser_val(v@));
            }
        },
    }
}

/// Appends the comma-separated serialization of the elements from `i` on.
pub(crate) fn write_items(out: &mut Vec<u8>, es: &Vec<JsonValue>, i: usize)
    ensures
        final(out)@ == old(out)@ + ser_items(arr_suffix_view(*es, 0), i as int),
    decreases es, es@.len() - i,
{
    proof {
        lemma_arr_suffix_view(*es, 0);
    }
    if i < es.len() {
        write_val(out, &es[i]);
        if i + 1 < es.len() {
            out.push(0x2c);
            write_items(out, es, i + 1);
        }
        assert(out@ =~= old(out)@ + ser_items(arr_suffix_view(*es, 0), i as int));
    }
}

/// Appends the comma-separated serialization of the members from `i` on.
fn write_members(out: &mut Vec<u8>, ms: &Vec<(Vec<u8>, JsonValue)>, i: usize)
    ensures
        final(out)@ == old(out)@ + ser_members(obj_suffix_view(*ms, 0), i as int),
    decreases ms, ms@.len() - i,
{
    proof {
        lemma_obj_suffix_view(*ms, 0);
    }
    if i < ms.len() {
        write_str(out, &ms[i].0);
        out.push(0x3a);
        write_val(out, &ms[i].1);
        if i + 1 < ms.len() {
            out.push(0x2c);
            write_members(out, ms, i + 1);
        }
        assert(out@ =~= old(out)@ + ser_members(obj_suffix_view(*ms, 0), i as int));
    }
}

/// Serializes `v` to its canonical JSON text.
pub fn to_json(v: &JsonValue) -> (r: Vec<u8>)
    ensures
        r@ == ser_val(v@),
{
    let mut out: Vec<u8> = Vec::new();
    write_val(&mut out, v);
    out
}

/// JSON whitespace.
pub open spec fn is_ws(b: u8) -> bool {
    b == 0x20 || b == 0x09 || b == 0x0a || b == 0x0d
}

/// ASCII decimal digit.
pub open spec fn is_digit(b: u8) -> bool {
    0x30 <= b && b <= 0x39
}

/// ASCII hexadecimal digit.
pub open spec fn is_hex(b: u8) -> bool {
    is_digit(b) || (0x61 <= b && b <= 0x66) || (0x41 <= b && b <= 0x46)
}

/// Value of an ASCII hexadecimal digit.
pub open spec fn hex_v(b: u8) -> int {
    if is_digit(b) {
        b - 0x30
    } else if 0x61 <= b && b <= 0x66 {
        b - 0x57
    } else {
        b - 0x37
    }
}

/// Everything from index `i` on is whitespace.
pub open spec fn ws_from(s: Seq<u8>, i: int) -> bool
    decreases s.len() - i,
{
    if i < 0 || i >= s.len() {
        true
    } else {
        is_ws(s[i]) && ws_from(s, i + 1)
    }
}

/// Parses the body of a string literal starting after the opening quote,
/// accumulating the unescaped bytes in `acc`; yields the contents and the
/// index after the closing quote. A `\uXXXX` escape below 0x80 contributes
/// that byte, any other code point its UTF-8 bytes; lone surrogates are
/// refused.
pub open spec fn sp_str_body(s: Seq<u8>, i: int, acc: Seq<u8>) -> Option<(Seq<u8>, int)>
    decreases s.len() - i, 0int,
{
    if i < 0 || i >= s.len() {
        None
    } else if s[i] == 0x22 {
        Some((acc, i + 1))
    } else if s[i] == 0x5c {
        if i + 2 > s.len() {
            None
        } else {
            let e = s[i + 1];
            if e == 0x22 || e == 0x5c || e == 0x2f {
                sp_str_body(s, i + 2, acc.push(e))
            } else if e == 0x6e {
                sp_str_body(s, i + 2, acc.push(0x0a))
            } else if e == 0x74 {
                sp_str_body(s, i + 2, acc.push(0x09))
            } else if e == 0x72 {
                sp_str_body(s, i + 2, acc.push(0x0d))
            } else if e == 0x62 {
                sp_str_body(s, i + 2, acc.push(0x08))
            } else if e == 0x66 {
                sp_str_body(s, i + 2, acc.push(0x0c))
            } else if e == 0x75 {
                if i + 6 <= s.len() && is_hex(s[i + 2]) && is_hex(s[i + 3]) && is_hex(s[i + 4])
                    && is_hex(s[i + 5]) {
                    let c = hex_v(s[i + 2]) * 4096 + hex_v(s[i + 3]) * 256 + hex_v(s[i + 4]) * 16
                        + hex_v(s[i + 5]);
                    if c < 0x80 {
                        sp_str_body(s, i + 6, acc.push(c as u8))
                    } else if c < 0x800 {
                        sp_str_body(
                            s,
                            i + 6,
                            acc.push((0xc0 + c / 64) as u8).push((0x80 + c % 64) as u8),
                        )
                    } else if 0xd800 <= c < 0xe000 {
                        None
                    } else {
                        sp_str_body(
                            s,
                            i + 6,
                            acc.push((0xe0 + c / 4096) as u8).push(
                                (0x80 + (c / 64) % 64) as u8,
                            ).push((0x80 + c % 64) as u8),
                        )
                    }
                } else {
                    None
                }
            } else {
                None
            }
        }
    } else if s[i] < 0x20 {
        None
    } else {
        sp_str_body(s, i + 1, acc.push(s[i]))
    }
}

/// Parses a string literal starting at its opening quote.
pub open spec fn sp_string(s: Seq<u8>, i: int) -> Option<(Seq<u8>, int)>
    decreases s.len() - i, 1int,
{
    if i < 0 || i >= s.len() || s[i] != 0x22 {
        None
    } else {
        sp_str_body(s, i + 1, Seq::empty())
    }
}

/// Consumes decimal digits, accumulating their value; stops at the first
/// non-digit.
pub open spec fn sp_digits(s: Seq<u8>, i: int, acc: int) -> (int, int)
    decreases s.len() - i, 0int,
{
    if i < 0 || i >= s.len() || !is_digit(s[i]) {
        (acc, i)
    } else {
        sp_digits(s, i + 1, acc * 10 + (s[i] - 0x30))
    }
}

/// Parses an integer number: an optional minus sign and decimal digits,
/// without a leading zero. A value outside the signed 64-bit range is
/// refused.
pub open spec fn sp_number(s: Seq<u8>, i: int) -> Option<(JsonVal, int)>
    decreases s.len() - i, 1int,
{
    if i < 0 || i >= s.len() {
        None
    } else {
        let neg = s[i] == 0x2d;
        let d0 = if neg {
            i + 1
        } else {
            i
        };
        if d0 >= s.len() || !is_digit(s[d0]) {
            None
        } else if s[d0] == 0x30 && d0 + 1 < s.len() && is_digit(s[d0 + 1]) {
            None
        } else {
            let (n, j) = sp_digits(s, d0, 0);
            let v = if neg {
                -n
            } else {
                n
            };
            if v < i64::MIN as int || v > i64::MAX as int {
                None
            } else {
                Some((JsonVal::Int(v), j))
            }
        }
    }
}

/// Parses a value, skipping leading whitespace; yields the value and the
/// index just after it.
pub open spec fn sp_value(s: Seq<u8>, i: int) -> Option<(JsonVal, int)>
    decreases s.len() - i, 2int,
{
    if i < 0 || i >= s.len() {
        None
    } else if is_ws(s[i]) {
        sp_value(s, i + 1)
    } else if s[i] == 0x6e {
        if i + 4 <= s.len() && s[i + 1] == 0x75 && s[i + 2] == 0x6c && s[i + 3] == 0x6c {
            Some((JsonVal::Null, i + 4))
        } else {
            None
        }
    } else if s[i] == 0x74 {
        if i + 4 <= s.len() && s[i + 1] == 0x72 && s[i + 2] == 0x75 && s[i + 3] == 0x65 {
            Some((JsonVal::Bool(true), i + 4))
        } else {
            None
        }
    } else if s[i] == 0x66 {
        if i + 5 <= s.len() && s[i + 1] == 0x61 && s[i + 2] == 0x6c && s[i + 3] == 0x73 && s[i + 4]
            == 0x65 {
            Some((JsonVal::Bool(false), i + 5))
        } else {
            None
        }
    } else if s[i] == 0x22 {
        match sp_string(s, i) {
            None => None,
            Some((cs, j)) => Some((JsonVal::Str(cs), j)),
        }
    } else if s[i] == 0x2d || is_digit(s[i]) {
        sp_number(s, i)
    } else if s[i] == 0x5b {
        match sp_items(s, i + 1) {
            None => None,
            Some((es, j)) => Some((JsonVal::Arr(es), j)),
        }
    } else if s[i] == 0x7b {
        match sp_members(s, i + 1) {
            None => None,
            Some((ms, j)) => Some((JsonVal::Obj(ms), j)),
        }
    } else {
        None
    }
}

/// Parses the elements of an array after the opening bracket; an immediate
/// closing bracket yields the empty sequence.
pub open spec fn sp_items(s: Seq<u8>, i: int) -> Option<(Seq<JsonVal>, int)>
    decreases s.len() - i, 3int,
{
    if i < 0 || i >= s.len() {
        None
    } else if is_ws(s[i]) {
        sp_items(s, i + 1)
    } else if s[i] == 0x5d {
        Some((Seq::empty(), i + 1))
    } else {
        match sp_value(s, i) {
            None => None,
            Some((v, j)) => if j <= i || j > s.len() {
                None
            } else {
                match sp_more_items(s, j) {
                    None => None,
                    Some((rest, k)) => Some((seq![v] + rest, k)),
                }
            },
        }
    }
}

/// Parses one required array element and whatever follows it.
pub open spec fn sp_elem(s: Seq<u8>, i: int) -> Option<(Seq<JsonVal>, int)>
    decreases s.len() - i, 3int,
{
    if i < 0 || i >= s.len() {
        None
    } else if is_ws(s[i]) {
        sp_elem(s, i + 1)
    } else {
        match sp_value(s, i) {
            None => None,
            Some((v, j)) => if j <= i || j > s.len() {
                None
            } else {
                match sp_more_items(s, j) {
                    None => None,
                    Some((rest, k)) => Some((seq![v] + rest, k)),
                }
            },
        }
    }
}

/// After an array element: a comma brings another element, a closing
/// bracket ends the array.
pub open spec fn sp_more_items(s: Seq<u8>, i: int) -> Option<(Seq<JsonVal>, int)>
    decreases s.len() - i, 3int,
{
    if i < 0 || i >= s.len() {
        None
    } else if is_ws(s[i]) {
        sp_more_items(s, i + 1)
    } else if s[i] == 0x5d {
        Some((Seq::empty(), i + 1))
    } else if s[i] == 0x2c {
        sp_elem(s, i + 1)
    } else {
        None
    }
}

/// After a member's key: a colon and the member's value, then whatever
/// follows the member.
pub open spec fn sp_member_rest(s: Seq<u8>, i: int, key: Seq<u8>) -> Option<
    (Seq<(Seq<u8>, JsonVal)>, int),
>
    decreases s.len() - i, 3int,
{
    if i < 0 || i >= s.len() {
        None
    } else if is_ws(s[i]) {
        sp_member_rest(s, i + 1, key)
    } else if s[i] == 0x3a {
        match sp_value(s, i + 1) {
            None => None,
            Some((v, j)) => if j <= i + 1 || j > s.len() {
                None
            } else {
                match sp_more_members(s, j) {
                    None => None,
                    Some((rest, k)) => Some((seq![(key, v)] + rest, k)),
                }
            },
        }
    } else {
        None
    }
}

/// Parses one required object member: a string key and its value.
pub open spec fn sp_next_member(s: Seq<u8>, i: int) -> Option<(Seq<(Seq<u8>, JsonVal)>, int)>
    decreases s.len() - i, 4int,
{
    if i < 0 || i >= s.len() {
        None
    } else if is_ws(s[i]) {
        sp_next_member(s, i + 1)
    } else if s[i] == 0x22 {
        match sp_string(s, i) {
            None => None,
            Some((key, j)) => if j <= i || j > s.len() {
                None
            } else {
                sp_member_rest(s, j, key)
            },
        }
    } else {
        None
    }
}

/// After an object member: a comma brings another member, a closing brace
/// ends the object.
pub open spec fn sp_more_members(s: Seq<u8>, i: int) -> Option<(Seq<(Seq<u8>, JsonVal)>, int)>
    decreases s.len() - i, 3int,
{
    if i < 0 || i >= s.len() {
        None
    } else if is_ws(s[i]) {
        sp_more_members(s, i + 1)
    } else if s[i] == 0x7d {
        Some((Seq::empty(), i + 1))
    } else if s[i] == 0x2c {
        sp_next_member(s, i + 1)
    } else {
        None
    }
}

/// Parses the members of an object after the opening brace; an immediate
/// closing brace yields the empty sequence.
pub open spec fn sp_members(s: Seq<u8>, i: int) -> Option<(Seq<(Seq<u8>, JsonVal)>, int)>
    decreases s.len() - i, 5int,
{
    if i < 0 || i >= s.len() {
        None
    } else if is_ws(s[i]) {
        sp_members(s, i + 1)
    } else if s[i] == 0x7d {
        Some((Seq::empty(), i + 1))
    } else {
        sp_next_member(s, i)
    }
}

/// Parses a complete JSON text: one value, with only whitespace around it.
pub open spec fn sp_json(s: Seq<u8>) -> Option<JsonVal> {
    match sp_value(s, 0) {
        None => None,
        Some((v, j)) => if ws_from(s, j) {
            Some(v)
        } else {
            None
        },
    }
}

/// Ten to the power `n`.
pub open spec fn pow10(n: int) -> int
    decreases n,
{
    if n <= 0 {
        1
    } else {
        10 * pow10(n - 1)
    }
}

fn exec_is_ws(b: u8) -> (r: bool)
    ensures
        r == is_ws(b),
{
    b == 0x20 || b == 0x09 || b == 0x0a || b == 0x0d
}

fn exec_is_digit(b: u8) -> (r: bool)
    ensures
        r == is_digit(b),
{
    0x30 <= b && b <= 0x39
}

fn exec_is_hex(b: u8) -> (r: bool)
    ensures
        r == is_hex(b),
{
    (0x30 <= b && b <= 0x39) || (0x61 <= b && b <= 0x66) || (0x41 <= b && b <= 0x46)
}

fn exec_hex_v(b: u8) -> (r: u8)
    requires
        is_hex(b),
    ensures
        r as int == hex_v(b),
{
    if 0x30 <= b && b <= 0x39 {
        b - 0x30
    } else if 0x61 <= b && b <= 0x66 {
        b - 0x57
    } else {
        b - 0x37
    }
}

fn parse_str_body(s: &Vec<u8>, i: usize, acc: Vec<u8>) -> (r: Option<(Vec<u8>, usize)>)
    ensures
        r is None ==> sp_str_body(s@, i as int, acc@) is None,
        r matches Some((cs, j)) ==> sp_str_body(s@, i as int, acc@) == Some((cs@, j as int)),
    decreases s@.len() - i, 0int,
{
    if i >= s.len() {
        return None;
    }
    let b = s[i];
    if b == 0x22 {
        Some((acc, i + 1))
    } else if b == 0x5c {
        if s.len() - i < 2 {
            return None;
        }
        let e = s[i + 1];
        let mut acc = acc;
        if e == 0x22 || e == 0x5c || e == 0x2f {
            acc.push(e);
            parse_str_body(s, i + 2, acc)
        } else if e == 0x6e {
            acc.push(0x0a);
            parse_str_body(s, i + 2, acc)
        } else if e == 0x74 {
            acc.push(0x09);
            parse_str_body(s, i + 2, acc)
        } else if e == 0x72 {
            acc.push(0x0d);
            parse_str_body(s, i + 2, acc)
        } else if e == 0x62 {
            acc.push(0x08);
            parse_str_body(s, i + 2, acc)
        } else if e == 0x66 {
            acc.push(0x0c);
            parse_str_body(s, i + 2, acc)
        } else if e == 0x75 {
            if s.len() - i >= 6 && exec_is_hex(s[i + 2]) && exec_is_hex(s[i + 3]) && exec_is_hex(
                s[i + 4],
            ) && exec_is_hex(s[i + 5]) {
                let c: u32 = exec_hex_v(s[i + 2]) as u32 * 4096 + exec_hex_v(s[i + 3]) as u32 * 256
                    + exec_hex_v(s[i + 4]) as u32 * 16 + exec_hex_v(s[i + 5]) as u32;
                if c < 0x80 {
                    acc.push(c as u8);
                    parse_str_body(s, i + 6, acc)
                } else if c < 0x800 {
                    acc.push(0xc0 + (c / 64) as u8);
                    acc.push(0x80 + (c % 64) as u8);
                    parse_str_body(s, i + 6, acc)
                } else if 0xd800 <= c && c < 0xe000 {
                    None
                } else {
                    acc.push(0xe0 + (c / 4096) as u8);
                    acc.push(0x80 + ((c / 64) % 64) as u8);
                    acc.push(0x80 + (c % 64) as u8);
                    parse_str_body(s, i + 6, acc)
                }
            } else {
                None
            }
        } else {
            None
        }
    } else if b < 0x20 {
        None
    } else {
        let mut acc = acc;
        acc.push(b);
        parse_str_body(s, i + 1, acc)
    }
}

fn parse_string(s: &Vec<u8>, i: usize) -> (r: Option<(Vec<u8>, usize)>)
    ensures
        r is None ==> sp_string(s@, i as int) is None,
        r matches Some((cs, j)) ==> sp_string(s@, i as int) == Some((cs@, j as int)),
    decreases s@.len() - i, 1int,
{
    if i >= s.len() || s[i] != 0x22 {
        return None;
    }
    let acc: Vec<u8> = Vec::new();
    parse_str_body(s, i + 1, acc)
}

/// The accumulated digit value never shrinks.
proof fn lemma_sp_digits_grows(s: Seq<u8>, i: int, acc: int)
    requires
        0 <= acc,
    ensures
        sp_digits(s, i, acc).0 >= acc,
    decreases s.len() - i,
{
    if !(i < 0 || i >= s.len() || !is_digit(s[i])) {
        lemma_sp_digits_grows(s, i + 1, acc * 10 + (s[i] - 0x30));
    }
}

fn parse_digits(s: &Vec<u8>, i: usize, acc: u64) -> (r: Option<(u64, usize)>)
    ensures
        r is None ==> sp_digits(s@, i as int, acc as int).0 > u64::MAX as int,
        r matches Some((n, j)) ==> sp_digits(s@, i as int, acc as int) == (n as int, j as int),
    decreases s@.len() - i, 0int,
{
    if i >= s.len() || !exec_is_digit(s[i]) {
        return Some((acc, i));
    }
    let d: u64 = (s[i] - 0x30) as u64;
    let wide: u128 = acc as u128 * 10 + d as u128;
    if wide > u64::MAX as u128 {
        proof {
            lemma_sp_digits_grows(s@, i as int + 1, acc as int * 10 + d as int);
        }
        return None;
    }
    parse_digits(s, i + 1, wide as u64)
}

/// `pow10` is positive.
pub(crate) proof fn lemma_pow10_pos(n: int)
    ensures
        pow10(n) >= 1,
    decreases
        if n >= 0 {
            n
        } else {
            0
        },
{
    if n > 0 {
        lemma_pow10_pos(n - 1);
    }
}

fn parse_number(s: &Vec<u8>, i: usize) -> (r: Option<(JsonValue, usize)>)
    ensures
        r is None ==> sp_number(s@, i as int) is None,
        r matches Some((v, j)) ==> sp_number(s@, i as int) == Some((v@, j as int)),
    decreases s@.len() - i, 1int,
{
    if i >= s.len() {
        return None;
    }
    let neg = s[i] == 0x2d;
    let d0: usize = if neg {
        i + 1
    } else {
        i
    };
    if d0 >= s.len() || !exec_is_digit(s[d0]) {
        return None;
    }
    if s[d0] == 0x30 && d0 + 1 < s.len() && exec_is_digit(s[d0 + 1]) {
        return None;
    }
    match parse_digits(s, d0, 0) {
        None => None,
        Some((n, j)) => {
            if !neg {
                if n <= i64::MAX as u64 {
                    Some((JsonValue::Int(n as i64), j))
                } else {
                    None
                }
            } else {
                if n <= i64::MAX as u64 {
                    Some((JsonValue::Int(-(n as i64)), j))
                } else if n == i64::MAX as u64 + 1 {
                    Some((JsonValue::Int(i64::MIN), j))
                } else {
                    None
                }
            }
        },
    }
}

fn parse_value(s: &Vec<u8>, i: usize) -> (r: Option<(JsonValue, usize)>)
    ensures
        r is None ==> sp_value(s@, i as int) is None,
        r matches Some((v, j)) ==> sp_value(s@, i as int) == Some((v@, j as int)),
    decreases s@.len() - i, 2int,
{
    if i >= s.len() {
        return None;
    }
    let b = s[i];
    if exec_is_ws(b) {
        parse_value(s, i + 1)
    } else if b == 0x6e {
        if s.len() - i >= 4 && s[i + 1] == 0x75 && s[i + 2] == 0x6c && s[i + 3] == 0x6c {
            Some((JsonValue::Null, i + 4))
        } else {
            None
        }
    } else if b == 0x74 {
        if s.len() - i >= 4 && s[i + 1] == 0x72 && s[i + 2] == 0x75 && s[i + 3] == 0x65 {
            Some((JsonValue::Bool(true), i + 4))
        } else {
            None
        }
    } else if b == 0x66 {
        if s.len() - i >= 5 && s[i + 1] == 0x61 && s[i + 2] == 0x6c && s[i + 3] == 0x73 && s[i + 4]
            == 0x65 {
            Some((JsonValue::Bool(false), i + 5))
        } else {
            None
        }
    } else if b == 0x22 {
        match parse_string(s, i) {
            None => None,
            Some((cs, j)) => Some((JsonValue::Str(cs), j)),
        }
    } else if b == 0x2d || exec_is_digit(b) {
        parse_number(s, i)
    } else if b == 0x5b {
        match parse_items(s, i + 1) {
            None => None,
            Some((es, j)) => Some((JsonValue::Arr(es), j)),
        }
    } else if b == 0x7b {
        match parse_members(s, i + 1) {
            None => None,
            Some((ms, j)) => Some((JsonValue::Obj(ms), j)),
        }
    } else {
        None
    }
}

fn parse_items(s: &Vec<u8>, i: usize) -> (r: Option<(Vec<JsonValue>, usize)>)
    ensures
        r is None ==> sp_items(s@, i as int) is None,
        r matches Some((es, j)) ==> sp_items(s@, i as int) == Some(
            (arr_suffix_view(es, 0), j as int),
        ),
    decreases s@.len() - i, 3int,
{
    if i >= s.len() {
        return None;
    }
    if exec_is_ws(s[i]) {
        return parse_items(s, i + 1);
    }
    if s[i] == 0x5d {
        let es: Vec<JsonValue> = Vec::new();
        return Some((es, i + 1));
    }
    match parse_value(s, i) {
        None => None,
        Some((v, j)) => {
            if j <= i || j > s.len() {
                return None;
            }
            match parse_more_items(s, j) {
                None => None,
                Some((rest, k)) => {
                    let mut rest = rest;
                    let ghost r0 = rest;
                    rest.insert(0, v);
                    proof {
                        lemma_arr_suffix_view(r0, 0);
                        lemma_arr_suffix_view(rest, 0);
                        assert(arr_suffix_view(rest, 0) =~= seq![v@] + arr_suffix_view(r0, 0));
                    }
                    Some((rest, k))
                },
            }
        },
    }
}

fn parse_elem(s: &Vec<u8>, i: usize) -> (r: Option<(Vec<JsonValue>, usize)>)
    ensures
        r is None ==> sp_elem(s@, i as int) is None,
        r matches Some((es, j)) ==> sp_elem(s@, i as int) == Some(
            (arr_suffix_view(es, 0), j as int),
        ),
    decreases s@.len() - i, 3int,
{
    if i >= s.len() {
        return None;
    }
    if exec_is_ws(s[i]) {
        return parse_elem(s, i + 1);
    }
    match parse_value(s, i) {
        None => None,
        Some((v, j)) => {
            if j <= i || j > s.len() {
                return None;
            }
            match parse_more_items(s, j) {
                None => None,
                Some((rest, k)) => {
                    let mut rest = rest;
                    let ghost r0 = rest;
                    rest.insert(0, v);
                    proof {
                        lemma_arr_suffix_view(r0, 0);
                        lemma_arr_suffix_view(rest, 0);
                        assert(arr_suffix_view(rest, 0) =~= seq![v@] + arr_suffix_view(r0, 0));
                    }
                    Some((rest, k))
                },
            }
        },
    }
}

fn parse_more_items(s: &Vec<u8>, i: usize) -> (r: Option<(Vec<JsonValue>, usize)>)
    ensures
        r is None ==> sp_more_items(s@, i as int) is None,
        r matches Some((es, j)) ==> sp_more_items(s@, i as int) == Some(
            (arr_suffix_view(es, 0), j as int),
        ),
    decreases s@.len() - i, 3int,
{
    if i >= s.len() {
        return None;
    }
    if exec_is_ws(s[i]) {
        return parse_more_items(s, i + 1);
    }
    if s[i] == 0x5d {
        let es: Vec<JsonValue> = Vec::new();
        return Some((es, i + 1));
    }
    if s[i] == 0x2c {
        parse_elem(s, i + 1)
    } else {
        None
    }
}

fn parse_member_rest(s: &Vec<u8>, i: usize, key: Vec<u8>) -> (r: Option<
    (Vec<(Vec<u8>, JsonValue)>, usize),
>)
    ensures
        r is None ==> sp_member_rest(s@, i as int, key@) is None,
        r matches Some((ms, j)) ==> sp_member_rest(s@, i as int, key@) == Some(
            (obj_suffix_view(ms, 0), j as int),
        ),
    decreases s@.len() - i, 3int,
{
    if i >= s.len() {
        return None;
    }
    if exec_is_ws(s[i]) {
        return parse_member_rest(s, i + 1, key);
    }
    if s[i] != 0x3a {
        return None;
    }
    match parse_value(s, i + 1) {
        None => None,
        Some((v, j)) => {
            if j <= i + 1 || j > s.len() {
                return None;
            }
            match parse_more_members(s, j) {
                None => None,
                Some((rest, k)) => {
                    let mut rest = rest;
                    let ghost r0 = rest;
                    let ghost keyv = key@;
                    let ghost vv = v@;
                    rest.insert(0, (key, v));
                    proof {
                        lemma_obj_suffix_view(r0, 0);
                        lemma_obj_suffix_view(rest, 0);
                        assert(obj_suffix_view(rest, 0) =~= seq![(keyv, vv)] + obj_suffix_view(
                            r0,
                            0,
                        ));
                    }
                    Some((rest, k))
                },
            }
        },
    }
}

fn parse_next_member(s: &Vec<u8>, i: usize) -> (r: Option<(Vec<(Vec<u8>, JsonValue)>, usize)>)
    ensures
        r is None ==> sp_next_member(s@, i as int) is None,
        r matches Some((ms, j)) ==> sp_next_member(s@, i as int) == Some(
            (obj_suffix_view(ms, 0), j as int),
        ),
    decreases s@.len() - i, 4int,
{
    if i >= s.len() {
        return None;
    }
    if exec_is_ws(s[i]) {
        return parse_next_member(s, i + 1);
    }
    if s[i] != 0x22 {
        return None;
    }
    match parse_string(s, i) {
        None => None,
        Some((key, j)) => {
            if j <= i || j > s.len() {
                return None;
            }
            parse_member_rest(s, j, key)
        },
    }
}

fn parse_more_members(s: &Vec<u8>, i: usize) -> (r: Option<(Vec<(Vec<u8>, JsonValue)>, usize)>)
    ensures
        r is None ==> sp_more_members(s@, i as int) is None,
        r matches Some((ms, j)) ==> sp_more_members(s@, i as int) == Some(
            (obj_suffix_view(ms, 0), j as int),
        ),
    decreases s@.len() - i, 3int,
{
    if i >= s.len() {
        return None;
    }
    if exec_is_ws(s[i]) {
        return parse_more_members(s, i + 1);
    }
    if s[i] == 0x7d {
        let ms: Vec<(Vec<u8>, JsonValue)> = Vec::new();
        return Some((ms, i + 1));
    }
    if s[i] == 0x2c {
        parse_next_member(s, i + 1)
    } else {
        None
    }
}

fn parse_members(s: &Vec<u8>, i: usize) -> (r: Option<(Vec<(Vec<u8>, JsonValue)>, usize)>)
    ensures
        r is None ==> sp_members(s@, i as int) is None,
        r matches Some((ms, j)) ==> sp_members(s@, i as int) == Some(
            (obj_suffix_view(ms, 0), j as int),
        ),
    decreases s@.len() - i, 5int,
{
    if i >= s.len() {
        return None;
    }
    if exec_is_ws(s[i]) {
        return parse_members(s, i + 1);
    }
    if s[i] == 0x7d {
        let ms: Vec<(Vec<u8>, JsonValue)> = Vec::new();
        return Some((ms, i + 1));
    }
    parse_next_member(s, i)
}

fn all_ws_from(s: &Vec<u8>, i: usize) -> (r: bool)
    ensures
        r == ws_from(s@, i as int),
    decreases s@.len() - i,
{
    if i >= s.len() {
        true
    } else if exec_is_ws(s[i]) {
        all_ws_from(s, i + 1)
    } else {
        false
    }
}

/// Parses a complete JSON text. The result is exactly what the grammar
/// `sp_json` assigns to the input bytes.
pub fn parse_json(s: &Vec<u8>) -> (r: Option<JsonValue>)
    ensures
        r is None ==> sp_json(s@) is None,
        r matches Some(v) ==> sp_json(s@) == Some(v@),
{
    match parse_value(s, 0) {
        None => None,
        Some((v, j)) => {
            if all_ws_from(s, j) {
                Some(v)
            } else {
                None
            }
        },
    }
}

pub(crate) fn bytes_eq(a: &Vec<u8>, b: &Vec<u8>) -> (r: bool)
    ensures
        r == (a@ == b@),
{
    if a.len() != b.len() {
        return false;
    }
    let mut k: usize = 0;
    while k < a.len()
        invariant
            a@.len() == b@.len(),
            k <= a@.len(),
            forall|t: int| 0 <= t < k ==> a@[t] == b@[t],
        decreases a@.len() - k,
    {
        if a[k] != b[k] {
            return false;
        }
        k = k + 1;
    }
    proof {
        assert(a@ =~= b@);
    }
    true
}

pub(crate) fn bytes_clone(a: &Vec<u8>) -> (r: Vec<u8>)
    ensures
        r@ == a@,
{
    let mut out: Vec<u8> = Vec::new();
    let mut k: usize = 0;
    while k < a.len()
        invariant
            k <= a@.len(),
            out@ == a@.subrange(0, k as int),
        decreases a@.len() - k,
    {
        out.push(a[k]);
        k = k + 1;
        proof {
            assert(out@ =~= a@.subrange(0, k as int));
        }
    }
    proof {
        assert(out@ =~= a@);
    }
    out
}

/// A byte that a JSON string literal carries as itself, unescaped.
pub open spec fn plain_byte(b: u8) -> bool {
    b >= 0x20 && b != 0x22 && b != 0x5c
}

/// Plain bytes render as themselves.
pub(crate) proof fn lemma_esc_plain(m: Seq<u8>, k: int)
    requires
        0 <= k <= m.len(),
        forall|t: int| k <= t < m.len() ==> plain_byte(#[trigger] m[t]),
    ensures
        esc_from(m, k) == m.subrange(k, m.len() as int),
    decreases m.len() - k,
{
    if k < m.len() {
        lemma_esc_plain(m, k + 1);
        assert(esc(m[k]) == seq![m[k]]);
        assert(esc_from(m, k) =~= m.subrange(k, m.len() as int));
    } else {
        assert(esc_from(m, k) =~= m.subrange(k, m.len() as int));
    }
}

/// A string body renders byte by byte as `esc` says and parses back to the
/// same bytes: the body from `k` on, followed by the closing quote, is
/// consumed whole, and the accumulated contents grow by exactly the bytes.
proof fn lemma_esc_body(s: Seq<u8>, i: int, m: Seq<u8>, k: int, acc: Seq<u8>)
    requires
        0 <= k <= m.len(),
        0 <= i,
        i + esc_from(m, k).len() + 1 <= s.len(),
        s.subrange(i, i + esc_from(m, k).len() + 1) == esc_from(m, k) + seq![0x22],
    ensures
        sp_str_body(s, i, acc) == Option::Some(
            (acc + m.subrange(k, m.len() as int), i + esc_from(m, k).len() + 1),
        ),
    decreases m.len() - k,
{
    if k == m.len() {
        assert(s[i] == s.subrange(i, i + esc_from(m, k).len() + 1)[0]);
        assert(s[i] == 0x22);
        assert(acc + m.subrange(k, m.len() as int) =~= acc);
    } else {
        let b = m[k];
        let e = esc(b);
        let l = e.len() as int;
        assert(esc_from(m, k) == e + esc_from(m, k + 1));
        assert forall|t: int| 0 <= t < l implies s[i + t] == e[t] by {
            assert(s[i + t] == s.subrange(i, i + esc_from(m, k).len() + 1)[t]);
        }
        assert(s.subrange(i + l, i + l + esc_from(m, k + 1).len() + 1) =~= esc_from(m, k + 1)
            + seq![0x22]) by {
            assert forall|t: int| 0 <= t < esc_from(m, k + 1).len() + 1 implies s[i + l + t]
                == #[trigger] (esc_from(m, k + 1) + seq![0x22])[t] by {
                assert(s[i + l + t] == s.subrange(i, i + esc_from(m, k).len() + 1)[l + t]);
            }
        }
        lemma_esc_body(s, i + l, m, k + 1, acc.push(b));
        assert(acc.push(b) + m.subrange(k + 1, m.len() as int) =~= acc + m.subrange(
            k,
            m.len() as int,
        ));
        if b == 0x22 || b == 0x5c {
            assert(s[i] == 0x5c && s[i + 1] == b);
        } else if b == 0x0a {
            assert(s[i] == 0x5c && s[i + 1] == 0x6e);
        } else if b == 0x09 {
            assert(s[i] == 0x5c && s[i + 1] == 0x74);
        } else if b == 0x0d {
            assert(s[i] == 0x5c && s[i + 1] == 0x72);
        } else if b == 0x08 {
            assert(s[i] == 0x5c && s[i + 1] == 0x62);
        } else if b == 0x0c {
            assert(s[i] == 0x5c && s[i + 1] == 0x66);
        } else if b < 0x20 {
            assert(s[i] == 0x5c && s[i + 1] == 0x75 && s[i + 2] == 0x30 && s[i + 3] == 0x30);
            assert(s[i + 4] == hex_digit(b as int / 16) && s[i + 5] == hex_digit(b as int % 16));
            assert(is_hex(0x30) && hex_v(0x30) == 0);
            assert(is_hex(hex_digit(b as int / 16)) && hex_v(hex_digit(b as int / 16)) == b as int
                / 16);
            assert(is_hex(hex_digit(b as int % 16)) && hex_v(hex_digit(b as int % 16)) == b as int
                % 16);
            assert((b as int / 16) * 16 + b as int % 16 == b as int);
        } else {
            assert(s[i + 0] == e[0]);
            assert(s[i] == b && b != 0x22 && b != 0x5c && !(b < 0x20));
        }
    }
}

/// Splitting a known segment of `s` into its two parts.
proof fn lemma_sub_split(s: Seq<u8>, i: int, a: Seq<u8>, b: Seq<u8>)
    requires
        0 <= i,
        i + a.len() + b.len() <= s.len(),
        s.subrange(i, i + a.len() + b.len()) == a + b,
    ensures
        s.subrange(i, i + a.len()) == a,
        s.subrange(i + a.len(), i + a.len() + b.len()) == b,
{
    assert forall|t: int| 0 <= t < a.len() + b.len() implies s[i + t] == #[trigger] (a + b)[t] by {
        assert(s[i + t] == s.subrange(i, i + a.len() + b.len())[t]);
    }
    assert(s.subrange(i, i + a.len()) =~= a);
    assert forall|t: int| 0 <= t < b.len() implies s.subrange(
        i + a.len(),
        i + a.len() + b.len(),
    )[t] == #[trigger] b[t] by {
        assert(s[i + a.len() + t] == (a + b)[a.len() + t]);
    }
    assert(s.subrange(i + a.len(), i + a.len() + b.len()) =~= b);
}

/// Numeric value of a digit string, most significant digit first.
pub open spec fn val_of(ds: Seq<u8>) -> int
    decreases ds.len(),
{
    if ds.len() == 0 {
        0
    } else {
        val_of(ds.drop_last()) * 10 + (ds.last() - 0x30)
    }
}

/// Value of a digit string with its first digit split off.
proof fn lemma_val_of_cons(d: u8, rest: Seq<u8>)
    ensures
        val_of(seq![d] + rest) == (d - 0x30) * pow10(rest.len() as int) + val_of(rest),
    decreases rest.len(),
{
    if rest.len() == 0 {
        assert(seq![d] + rest =~= seq![d]);
        assert(seq![d].drop_last() =~= Seq::<u8>::empty());
        assert(val_of(Seq::<u8>::empty()) == 0);
        assert(val_of(seq![d]) == (d - 0x30) as int);
    } else {
        let full = seq![d] + rest;
        assert(full.drop_last() =~= seq![d] + rest.drop_last());
        lemma_val_of_cons(d, rest.drop_last());
        let k = rest.len() - 1;
        assert(((d - 0x30) * pow10(k)) * 10 == (d - 0x30) * (pow10(k) * 10)) by (nonlinear_arith);
        assert(pow10(k) * 10 == pow10(k + 1));
    }
}

/// Parsing a digit run yields the accumulated value: the digits at
/// `[i, j)`, weighted under the incoming accumulator.
proof fn lemma_digits_parse(s: Seq<u8>, i: int, j: int, acc: int)
    requires
        0 <= i <= j <= s.len(),
        forall|t: int| i <= t < j ==> is_digit(#[trigger] s[t]),
        j == s.len() || !is_digit(s[j]),
        0 <= acc,
    ensures
        sp_digits(s, i, acc) == (acc * pow10(j - i) + val_of(s.subrange(i, j)), j),
    decreases j - i,
{
    if i == j {
        assert(s.subrange(i, j) =~= Seq::<u8>::empty());
    } else {
        let d = (s[i] - 0x30) as int;
        lemma_digits_parse(s, i + 1, j, acc * 10 + d);
        assert(s.subrange(i, j) =~= seq![s[i]] + s.subrange(i + 1, j));
        lemma_val_of_cons(s[i], s.subrange(i + 1, j));
        let k = j - i - 1;
        lemma_pow10_pos(k);
        assert((acc * 10 + d) * pow10(k) == acc * (10 * pow10(k)) + d * pow10(k))
            by (nonlinear_arith);
        assert(10 * pow10(k) == pow10(k + 1));
    }
}

/// The decimal rendering of a non-negative integer: at least one byte, all
/// digits, the rendered value, and no leading zero unless the number is 0.
proof fn lemma_dec_of_props(n: int)
    requires
        0 <= n,
    ensures
        dec_of(n).len() >= 1,
        forall|t: int| 0 <= t < dec_of(n).len() ==> is_digit(#[trigger] dec_of(n)[t]),
        val_of(dec_of(n)) == n,
        n >= 1 ==> dec_of(n)[0] != 0x30,
    decreases n,
{
    if n < 10 {
        assert(dec_of(n).drop_last() =~= Seq::<u8>::empty());
        assert(val_of(Seq::<u8>::empty()) == 0);
        assert(val_of(dec_of(n)) == n);
    } else {
        lemma_dec_of_props(n / 10);
        assert(dec_of(n) == dec_of(n / 10) + seq![(0x30 + n % 10) as u8]);
        assert(dec_of(n).drop_last() =~= dec_of(n / 10));
        assert(dec_of(n)[0] == dec_of(n / 10)[0]);
    }
}

/// Parsing the rendering of an integer in range recovers it: the bytes at
/// `[i, j)` spell `ser_int(n)` and the next byte, if any, is no digit.
proof fn lemma_int_parse(s: Seq<u8>, i: int, n: int)
    requires
        i64::MIN as int <= n <= i64::MAX as int,
        0 <= i,
        i + ser_int(n).len() <= s.len(),
        s.subrange(i, i + ser_int(n).len()) == ser_int(n),
        i + ser_int(n).len() == s.len() || !is_digit(s[i + ser_int(n).len()]),
    ensures
        sp_number(s, i) == Option::Some((JsonVal::Int(n), i + ser_int(n).len())),
{
    let j = i + ser_int(n).len();
    let m = if n < 0 { -n } else { n };
    lemma_dec_of_props(m);
    let d0 = if n < 0 { i + 1 } else { i };
    assert forall|t: int| 0 <= t < ser_int(n).len() implies s[i + t] == #[trigger] ser_int(n)[t]
        by {
        assert(s[i + t] == s.subrange(i, i + ser_int(n).len())[t]);
    }
    if n < 0 {
        assert(s[i + 0] == ser_int(n)[0]);
        assert(s[i] == 0x2d);
        assert forall|t: int| d0 <= t < j implies is_digit(#[trigger] s[t]) by {
            assert(s[t] == ser_int(n)[t - i]);
            assert(ser_int(n)[t - i] == dec_of(m)[t - i - 1]);
        }
        assert forall|t: int| 0 <= t < j - d0 implies s.subrange(d0, j)[t] == #[trigger] dec_of(
            m,
        )[t] by {
            assert(s[d0 + t] == ser_int(n)[d0 + t - i]);
            assert(ser_int(n)[1 + t] == dec_of(m)[t]);
        }
        assert(s.subrange(d0, j) =~= dec_of(m));
    } else {
        assert forall|t: int| d0 <= t < j implies is_digit(#[trigger] s[t]) by {
            assert(s[t] == ser_int(n)[t - i]);
        }
        assert forall|t: int| 0 <= t < j - d0 implies s.subrange(d0, j)[t] == #[trigger] dec_of(
            m,
        )[t] by {
            assert(s[d0 + t] == ser_int(n)[d0 + t - i]);
        }
        assert(s.subrange(d0, j) =~= dec_of(m));
        assert(s[i + 0] == ser_int(n)[0]);
        assert(!(s[i] == 0x2d));
    }
    assert(is_digit(s[d0]));
    if m >= 1 {
        assert(s[d0] == dec_of(m)[0]);
        assert(s[d0] != 0x30);
    } else {
        assert(dec_of(0) == seq![0x30u8]);
        assert(d0 + 1 == j);
    }
    lemma_digits_parse(s, d0, j, 0);
    assert(0 * pow10(j - d0) == 0);
    assert(val_of(dec_of(m)) == m);
}

/// Integers in a value fit the signed 64-bit range the grammar accepts.
/// Arrays and objects are well formed element by element.
pub open spec fn wf_val(v: JsonVal) -> bool
    decreases v,
{
    match v {
        JsonVal::Int(i) => i64::MIN as int <= i <= i64::MAX as int,
        JsonVal::Arr(es) => wf_items(es, 0),
        JsonVal::Obj(ms) => wf_members(ms, 0),
        _ => true,
    }
}

/// Well-formedness of the array elements from index `k` on.
pub open spec fn wf_items(es: Seq<JsonVal>, k: int) -> bool
    decreases es, es.len() - k,
{
    if k < 0 || k >= es.len() {
        true
    } else {
        wf_val(es[k]) && wf_items(es, k + 1)
    }
}

/// Well-formedness of the object member values from index `k` on.
pub open spec fn wf_members(ms: Seq<(Seq<u8>, JsonVal)>, k: int) -> bool
    decreases ms, ms.len() - k,
{
    if k < 0 || k >= ms.len() {
        true
    } else {
        wf_val(ms[k].1) && wf_members(ms, k + 1)
    }
}

/// A byte that can open a value.
pub open spec fn value_start(b: u8) -> bool {
    b == 0x6e || b == 0x74 || b == 0x66 || b == 0x22 || b == 0x5b || b == 0x7b || b == 0x2d
        || is_digit(b)
}

/// Every serialization is non-empty and opens with a value-start byte.
proof fn lemma_ser_val_first(v: JsonVal)
    ensures
        ser_val(v).len() >= 1,
        value_start(ser_val(v)[0]),
{
    match v {
        JsonVal::Int(i) => {
            let m = if i < 0 { -i } else { i };
            lemma_dec_of_props(m);
            if i < 0 {
                assert(ser_val(v)[0] == 0x2d);
            } else {
                assert(ser_val(v)[0] == dec_of(m)[0]);
            }
        },
        _ => {},
    }
}

/// Parsing the serialization of a well-formed value, embedded in a larger
/// text and followed by no digit, recovers exactly that value.
proof fn lemma_value_parse(s: Seq<u8>, i: int, v: JsonVal)
    requires
        wf_val(v),
        0 <= i,
        i + ser_val(v).len() <= s.len(),
        s.subrange(i, i + ser_val(v).len()) == ser_val(v),
        i + ser_val(v).len() == s.len() || !is_digit(s[i + ser_val(v).len()]),
    ensures
        sp_value(s, i) == Option::Some((v, i + ser_val(v).len())),
    decreases v, 0int,
{
    let l = ser_val(v).len() as int;
    assert forall|t: int| 0 <= t < l implies s[i + t] == #[trigger] ser_val(v)[t] by {
        assert(s[i + t] == s.subrange(i, i + l)[t]);
    }
    match v {
        JsonVal::Null => {
            assert(s[i + 0] == 0x6e && s[i + 1] == 0x75 && s[i + 2] == 0x6c && s[i + 3] == 0x6c);
        },
        JsonVal::Bool(b) => {
            if b {
                assert(s[i + 0] == 0x74 && s[i + 1] == 0x72 && s[i + 2] == 0x75 && s[i + 3]
                    == 0x65);
            } else {
                assert(s[i + 0] == 0x66 && s[i + 1] == 0x61 && s[i + 2] == 0x6c && s[i + 3]
                    == 0x73 && s[i + 4] == 0x65);
            }
        },
        JsonVal::Int(n) => {
            lemma_ser_val_first(v);
            assert(s[i + 0] == ser_val(v)[0]);
            lemma_int_parse(s, i, n);
        },
        JsonVal::Str(m) => {
            assert(s[i + 0] == ser_val(v)[0]);
            assert(ser_val(v) =~= seq![0x22] + (esc_from(m, 0) + seq![0x22]));
            lemma_sub_split(s, i, seq![0x22], esc_from(m, 0) + seq![0x22]);
            lemma_esc_body(s, i + 1, m, 0, Seq::empty());
            assert(Seq::<u8>::empty() + m.subrange(0, m.len() as int) =~= m);
        },
        JsonVal::Arr(es) => {
            assert(s[i + 0] == ser_val(v)[0]);
            assert(ser_val(v) =~= seq![0x5b] + (ser_items(es, 0) + seq![0x5d]));
            lemma_sub_split(s, i, seq![0x5b], ser_items(es, 0) + seq![0x5d]);
            lemma_items_parse(s, i + 1, es);
        },
        JsonVal::Obj(ms) => {
            assert(s[i + 0] == ser_val(v)[0]);
            assert(ser_val(v) =~= seq![0x7b] + (ser_members(ms, 0) + seq![0x7d]));
            lemma_sub_split(s, i, seq![0x7b], ser_members(ms, 0) + seq![0x7d]);
            lemma_members_parse(s, i + 1, ms);
        },
    }
}

/// Parsing an array's rendered elements and closing bracket, from the
/// position just after the opening bracket, recovers the elements.
proof fn lemma_items_parse(s: Seq<u8>, i: int, es: Seq<JsonVal>)
    requires
        wf_items(es, 0),
        0 <= i,
        i + ser_items(es, 0).len() + 1 <= s.len(),
        s.subrange(i, i + ser_items(es, 0).len() + 1) == ser_items(es, 0) + seq![0x5d],
    ensures
        sp_items(s, i) == Option::Some((es, i + ser_items(es, 0).len() + 1)),
    decreases es, es.len() + 1,
{
    if es.len() == 0 {
        assert(s[i] == s.subrange(i, i + 1)[0]);
        assert(s[i] == 0x5d);
        assert(sp_items(s, i) == Option::Some((Seq::<JsonVal>::empty(), i + 1)));
        assert(es =~= Seq::<JsonVal>::empty());
    } else {
        lemma_elem_items_common(s, i, es, 0);
        assert(es.subrange(0, es.len() as int) =~= es);
    }
}

/// The shared step for one required element: its value, then either the
/// closing bracket or a comma and the elements after it. Establishes what
/// both `sp_items` and `sp_elem` yield at a position holding the rendering
/// of the elements from `k` on.
proof fn lemma_elem_items_common(s: Seq<u8>, i: int, es: Seq<JsonVal>, k: int)
    requires
        0 <= k < es.len(),
        wf_items(es, k),
        0 <= i,
        i + ser_items(es, k).len() + 1 <= s.len(),
        s.subrange(i, i + ser_items(es, k).len() + 1) == ser_items(es, k) + seq![0x5d],
    ensures
        sp_value(s, i) == Option::Some((es[k], i + ser_val(es[k]).len())),
        sp_more_items(s, i + ser_val(es[k]).len()) == Option::Some(
            (es.subrange(k + 1, es.len() as int), i + ser_items(es, k).len() + 1),
        ),
        sp_items(s, i) == Option::Some(
            (es.subrange(k, es.len() as int), i + ser_items(es, k).len() + 1),
        ),
        sp_elem(s, i) == Option::Some(
            (es.subrange(k, es.len() as int), i + ser_items(es, k).len() + 1),
        ),
    decreases es, es.len() - k,
{
    let v0 = es[k];
    let lv = ser_val(v0).len() as int;
    let p = i + lv;
    let end = i + ser_items(es, k).len() + 1;
    lemma_ser_val_first(v0);
    if k == es.len() - 1 {
        assert(ser_items(es, k) == ser_val(v0));
        assert(ser_items(es, k) + seq![0x5d] =~= ser_val(v0) + seq![0x5d]);
        lemma_sub_split(s, i, ser_val(v0), seq![0x5d]);
        assert(s[p] == s.subrange(p, p + 1)[0]);
        assert(s[p] == 0x5d);
        lemma_value_parse(s, i, v0);
        assert(sp_more_items(s, p) == Option::Some((Seq::<JsonVal>::empty(), p + 1)));
        assert(seq![v0] + Seq::<JsonVal>::empty() =~= es.subrange(k, es.len() as int));
        assert(s[i + 0] == ser_val(v0)[0]);
    } else {
        let rest = ser_items(es, k + 1);
        assert(ser_items(es, k) + seq![0x5d] =~= ser_val(v0) + (seq![0x2c] + (rest + seq![
            0x5d,
        ])));
        lemma_sub_split(s, i, ser_val(v0), seq![0x2c] + (rest + seq![0x5d]));
        lemma_sub_split(s, p, seq![0x2c], rest + seq![0x5d]);
        assert(s[p] == s.subrange(p, p + 1)[0]);
        assert(s[p] == 0x2c);
        lemma_value_parse(s, i, v0);
        lemma_elem_items_common(s, p + 1, es, k + 1);
        assert(seq![v0] + es.subrange(k + 1, es.len() as int) =~= es.subrange(
            k,
            es.len() as int,
        ));
        assert(s[i + 0] == ser_val(v0)[0]);
    }
}

/// Parsing an object's rendered members and closing brace, from the
/// position just after the opening brace, recovers the members.
proof fn lemma_members_parse(s: Seq<u8>, i: int, ms: Seq<(Seq<u8>, JsonVal)>)
    requires
        wf_members(ms, 0),
        0 <= i,
        i + ser_members(ms, 0).len() + 1 <= s.len(),
        s.subrange(i, i + ser_members(ms, 0).len() + 1) == ser_members(ms, 0) + seq![0x7d],
    ensures
        sp_members(s, i) == Option::Some((ms, i + ser_members(ms, 0).len() + 1)),
    decreases ms, ms.len() + 1,
{
    if ms.len() == 0 {
        assert(s[i] == s.subrange(i, i + 1)[0]);
        assert(s[i] == 0x7d);
        assert(ms =~= Seq::<(Seq<u8>, JsonVal)>::empty());
    } else {
        lemma_member_parse(s, i, ms, 0);
        assert(ms.subrange(0, ms.len() as int) =~= ms);
        assert(s[i] == s.subrange(i, i + 1)[0]);
        assert(s[i] == 0x22);
    }
}

/// One required member: its key string, a colon, its value, then either
/// the closing brace or a comma and the members after it.
proof fn lemma_member_parse(s: Seq<u8>, i: int, ms: Seq<(Seq<u8>, JsonVal)>, k: int)
    requires
        0 <= k < ms.len(),
        wf_members(ms, k),
        0 <= i,
        i + ser_members(ms, k).len() + 1 <= s.len(),
        s.subrange(i, i + ser_members(ms, k).len() + 1) == ser_members(ms, k) + seq![0x7d],
    ensures
        sp_next_member(s, i) == Option::Some(
            (ms.subrange(k, ms.len() as int), i + ser_members(ms, k).len() + 1),
        ),
    decreases ms, ms.len() - k,
{
    let key = ms[k].0;
    let v0 = ms[k].1;
    let lk = ser_str(key).len() as int;
    let lv = ser_val(v0).len() as int;
    let p = i + lk;
    let q = p + 1 + lv;
    let end = i + ser_members(ms, k).len() + 1;
    lemma_ser_val_first(v0);
    let tail: Seq<u8> = if k == ms.len() - 1 {
        seq![0x7d]
    } else {
        seq![0x2c] + (ser_members(ms, k + 1) + seq![0x7d])
    };
    assert(ser_members(ms, k) + seq![0x7d] =~= ser_str(key) + (seq![0x3a] + (ser_val(v0)
        + tail)));
    lemma_sub_split(s, i, ser_str(key), seq![0x3a] + (ser_val(v0) + tail));
    lemma_sub_split(s, p, seq![0x3a], ser_val(v0) + tail);
    lemma_sub_split(s, p + 1, ser_val(v0), tail);
    assert(s[i] == s.subrange(i, i + lk)[0]);
    assert(s[i] == 0x22);
    assert(ser_str(key) =~= seq![0x22] + (esc_from(key, 0) + seq![0x22]));
    lemma_sub_split(s, i, seq![0x22], esc_from(key, 0) + seq![0x22]);
    lemma_esc_body(s, i + 1, key, 0, Seq::empty());
    assert(Seq::<u8>::empty() + key.subrange(0, key.len() as int) =~= key);
    assert(s[p] == s.subrange(p, p + 1)[0]);
    assert(s[p] == 0x3a);
    assert(s[q + 0] == s.subrange(q, q + tail.len() as int)[0]);
    assert(s[q] == tail[0]);
    assert(!is_digit(s[q]));
    lemma_value_parse(s, p + 1, v0);
    if k == ms.len() - 1 {
        assert(s[q] == 0x7d);
        assert((key, v0) == ms[k]);
        assert(seq![(key, v0)] + Seq::<(Seq<u8>, JsonVal)>::empty() =~= ms.subrange(
            k,
            ms.len() as int,
        ));
        assert(sp_string(s, i) == Option::Some((key, p)));
        assert(sp_value(s, p + 1) == Option::Some((v0, q)));
        assert(sp_more_members(s, q) == Option::Some(
            (Seq::<(Seq<u8>, JsonVal)>::empty(), q + 1),
        ));
        assert(q + 1 == end);
        assert(sp_member_rest(s, p, key) == Option::Some(
            (ms.subrange(k, ms.len() as int), end),
        ));
    } else {
        lemma_sub_split(s, q, seq![0x2c], ser_members(ms, k + 1) + seq![0x7d]);
        assert(s[q] == 0x2c);
        lemma_member_parse(s, q + 1, ms, k + 1);
        assert(seq![(key, v0)] + ms.subrange(k + 1, ms.len() as int) =~= ms.subrange(
            k,
            ms.len() as int,
        ));
    }
}

/// Round trip for whole values: serializing any well-formed value and
/// parsing the text back recovers exactly that value.
pub proof fn lemma_value_round_trip(v: JsonVal)
    requires
        wf_val(v),
    ensures
        sp_json(ser_val(v)) == Option::Some(v),
{
    let s = ser_val(v);
    assert(s.subrange(0, s.len() as int) =~= s);
    lemma_value_parse(s, 0, v);
}

} // verus!
