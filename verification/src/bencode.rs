//! Bencode: a byte format for strings, integers, lists and dictionaries.

use vstd::prelude::*;
use vstd::slice::slice_subrange;
use vstd::utf8::*;

use crate::decimal;
use crate::decimal::{i64_text, parse_i64, parse_usize, u64_text, usize_text};

verus! {

/// A bencode value.
#[derive(Debug, PartialEq)]
pub enum Value {
    Bytes(Vec<u8>),
    Integer(i64),
    List(Vec<Value>),
    /// The pairs keep the order in which they were given.
    Dict(Vec<(Vec<u8>, Value)>),
}

/// The mathematical counterpart of [`Value`].
pub enum ValueView {
    Bytes(Seq<u8>),
    Integer(i64),
    List(Seq<ValueView>),
    Dict(Seq<(Seq<u8>, ValueView)>),
}

/// The view of a value.
pub open spec fn value_view(v: Value) -> ValueView
    decreases v,
{
    match v {
        Value::Bytes(b) => ValueView::Bytes(b@),
        Value::Integer(n) => ValueView::Integer(n),
        Value::List(items) => ValueView::List(
            Seq::new(
                items@.len(),
                |i: int|
                    if 0 <= i < items@.len() {
                        value_view(items@[i])
                    } else {
                        ValueView::Integer(0)
                    },
            ),
        ),
        Value::Dict(pairs) => ValueView::Dict(
            Seq::new(
                pairs@.len(),
                |i: int|
                    if 0 <= i < pairs@.len() {
                        (pairs@[i].0@, value_view(pairs@[i].1))
                    } else {
                        (seq![], ValueView::Integer(0))
                    },
            ),
        ),
    }
}

impl View for Value {
    type V = ValueView;

    open spec fn view(&self) -> ValueView {
        value_view(*self)
    }
}

#[verifier::external_type_specification]
#[verifier::external_body]
pub struct ExUtf8Error(core::str::Utf8Error);

/// `core::str::from_utf8`: the bytes as a string exactly where they are valid
/// UTF-8.
pub assume_specification[ core::str::from_utf8 ](v: &[u8]) -> (r: Result<&str, core::str::Utf8Error>)
    ensures
        r is Ok <==> valid_utf8(v@),
        r matches Ok(s) ==> encode_utf8(s@) == v@,
;

/// Error returned when decoding fails.
#[derive(Debug, PartialEq)]
pub struct DecodeError(pub String);

impl View for DecodeError {
    type V = Seq<char>;

    open spec fn view(&self) -> Seq<char> {
        self.0@
    }
}

impl DecodeError {
    /// The error as a line of text.
    pub fn message(&self) -> (r: String)
        ensures
            r@ == "bencode decode error: "@ + self@,
    {
        let mut out = "bencode decode error: ".to_owned();
        out.append(self.0.as_str());
        out
    }
}

/// The views of a list of values.
pub open spec fn value_views(items: Seq<Value>) -> Seq<ValueView> {
    items.map_values(|v: Value| v@)
}

/// The views of a list of pairs.
pub open spec fn pair_views(pairs: Seq<(Vec<u8>, Value)>) -> Seq<(Seq<u8>, ValueView)> {
    pairs.map_values(|p: (Vec<u8>, Value)| (p.0@, p.1@))
}

/// The view of a list of values is the list of their views.
pub proof fn lemma_list_view(items: Vec<Value>)
    ensures
        Value::List(items)@ == ValueView::List(value_views(items@)),
{
    assert(Value::List(items)@->List_0 =~= value_views(items@));
}

/// The view of a dictionary is the list of the views of its pairs.
pub proof fn lemma_dict_view(pairs: Vec<(Vec<u8>, Value)>)
    ensures
        Value::Dict(pairs)@ == ValueView::Dict(pair_views(pairs@)),
{
    assert(Value::Dict(pairs)@->Dict_0 =~= pair_views(pairs@));
}

/// A copy of a value.
fn copy_of(value: &Value) -> (r: Value)
    ensures
        r@ == value@,
    decreases value,
{
    match value {
        Value::Bytes(b) => {
            let mut out: Vec<u8> = Vec::new();
            out.extend_from_slice(b.as_slice());
            proof {
                assert(out@ =~= b@);
            }
            Value::Bytes(out)
        },
        Value::Integer(n) => Value::Integer(*n),
        Value::List(items) => {
            let mut out: Vec<Value> = Vec::new();
            let mut i: usize = 0;
            while i < items.len()
                invariant
                    i <= items.len(),
                    out.len() == i,
                    forall|k: int| 0 <= k < i ==> (#[trigger] out@[k])@ == items@[k]@,
                    *value == Value::List(*items),
                decreases items.len() - i,
            {
                proof {
                    assert(decreases_to!(*value => value->List_0));
                    assert(decreases_to!(*items => items@));
                    assert(decreases_to!(items@ => items@[i as int]));
                }
                out.push(copy_of(&items[i]));
                i += 1;
            }
            proof {
                lemma_list_view(*items);
                lemma_list_view(out);
                assert(value_views(out@) =~= value_views(items@));
            }
            Value::List(out)
        },
        Value::Dict(pairs) => {
            let mut out: Vec<(Vec<u8>, Value)> = Vec::new();
            let mut i: usize = 0;
            while i < pairs.len()
                invariant
                    i <= pairs.len(),
                    out.len() == i,
                    forall|k: int|
                        0 <= k < i ==> (#[trigger] out@[k]).0@ == pairs@[k].0@ && out@[k].1@
                            == pairs@[k].1@,
                    *value == Value::Dict(*pairs),
                decreases pairs.len() - i,
            {
                proof {
                    assert(decreases_to!(*value => value->Dict_0));
                    assert(decreases_to!(*pairs => pairs@));
                    assert(decreases_to!(pairs@ => pairs@[i as int]));
                    assert(decreases_to!(pairs@[i as int] => pairs@[i as int].1));
                }
                let pair = &pairs[i];
                let mut key: Vec<u8> = Vec::new();
                key.extend_from_slice(pair.0.as_slice());
                proof {
                    assert(key@ =~= pair.0@);
                }
                out.push((key, copy_of(&pair.1)));
                i += 1;
            }
            proof {
                lemma_dict_view(*pairs);
                lemma_dict_view(out);
                assert(pair_views(out@) =~= pair_views(pairs@));
            }
            Value::Dict(out)
        },
    }
}

impl Clone for Value {
    fn clone(&self) -> (r: Self)
        ensures
            r@ == self@,
    {
        copy_of(self)
    }
}

/// The bytes of a byte string: its length, a colon, and its bytes.
pub open spec fn encoded_bytes(b: Seq<u8>) -> Seq<u8> {
    encode_utf8(decimal::digits(b.len())) + seq![58u8] + b
}

/// The bytes of a value.
pub open spec fn encoded(v: ValueView) -> Seq<u8>
    decreases v,
{
    match v {
        ValueView::Bytes(b) => encoded_bytes(b),
        ValueView::Integer(n) => seq![105u8] + encode_utf8(decimal::decimal(n as int)) + seq![101u8],
        ValueView::List(items) => seq![108u8] + encoded_items(items) + seq![101u8],
        ValueView::Dict(pairs) => seq![100u8] + encoded_pairs(pairs) + seq![101u8],
    }
}

/// The bytes of values, one behind the other.
pub open spec fn encoded_items(items: Seq<ValueView>) -> Seq<u8>
    decreases items,
{
    if items.len() == 0 {
        seq![]
    } else {
        encoded(items[0]) + encoded_items(items.skip(1))
    }
}

/// The bytes of pairs, one behind the other.
pub open spec fn encoded_pairs(pairs: Seq<(Seq<u8>, ValueView)>) -> Seq<u8>
    decreases pairs,
{
    if pairs.len() == 0 {
        seq![]
    } else {
        encoded_bytes(pairs[0].0) + encoded(pairs[0].1) + encoded_pairs(pairs.skip(1))
    }
}

/// Puts the bytes of a byte string behind the others.
fn encode_bytes_into(b: &Vec<u8>, out: &mut Vec<u8>)
    ensures
        final(out)@ == old(out)@ + encoded_bytes(b@),
{
    let ghost first = out@;
    let numeral = usize_text(b.len());
    out.extend_from_slice(numeral.as_str().as_bytes());
    out.push(58);
    out.extend_from_slice(b.as_slice());
    proof {
        assert(out@ =~= first + encoded_bytes(b@));
    }
}

/// Puts the bytes of a value behind the others.
pub fn encode_into(value: &Value, out: &mut Vec<u8>)
    ensures
        final(out)@ == old(out)@ + encoded(value@),
    decreases value,
{
    let ghost first = out@;
    match value {
        Value::Bytes(b) => {
            encode_bytes_into(b, out);
        },
        Value::Integer(n) => {
            out.push(105);
            let numeral = i64_text(*n);
            out.extend_from_slice(numeral.as_str().as_bytes());
            out.push(101);
            proof {
                assert(out@ =~= first + encoded(value@));
            }
        },
        Value::List(items) => {
            out.push(108);
            let ghost start = out@;
            let ghost views = value_views(items@);
            let mut i: usize = 0;
            proof {
                lemma_list_view(*items);
                assert(views.skip(0) == views);
            }
            while i < items.len()
                invariant
                    i <= items.len(),
                    views == value_views(items@),
                    out@ + encoded_items(views.skip(i as int)) == start + encoded_items(views),
                    *value == Value::List(*items),
                decreases items.len() - i,
            {
                let ghost before = out@;
                proof {
                    assert(views.skip(i as int)[0] == items@[i as int]@);
                    assert(views.skip(i as int).skip(1) == views.skip(i + 1));
                    assert(decreases_to!(*value => value->List_0));
                    assert(decreases_to!(*items => items@));
                    assert(decreases_to!(items@ => items@[i as int]));
                }
                encode_into(&items[i], out);
                proof {
                    let tail = encoded_items(views.skip(i + 1));
                    let head = encoded(items@[i as int]@);
                    assert(before + (head + tail) =~= out@ + tail);
                }
                i += 1;
            }
            proof {
                assert(views.skip(i as int) =~= seq![]);
                assert(out@ + encoded_items(views.skip(i as int)) =~= out@);
            }
            out.push(101);
            proof {
                assert(out@ =~= first + encoded(value@));
            }
        },
        Value::Dict(pairs) => {
            out.push(100);
            let ghost start = out@;
            let ghost views = pair_views(pairs@);
            let mut i: usize = 0;
            proof {
                lemma_dict_view(*pairs);
                assert(views.skip(0) == views);
            }
            while i < pairs.len()
                invariant
                    i <= pairs.len(),
                    views == pair_views(pairs@),
                    out@ + encoded_pairs(views.skip(i as int)) == start + encoded_pairs(views),
                    *value == Value::Dict(*pairs),
                decreases pairs.len() - i,
            {
                let ghost before = out@;
                proof {
                    assert(views.skip(i as int)[0] == (pairs@[i as int].0@, pairs@[i as int].1@));
                    assert(views.skip(i as int).skip(1) == views.skip(i + 1));
                    assert(decreases_to!(*value => value->Dict_0));
                    assert(decreases_to!(*pairs => pairs@));
                    assert(decreases_to!(pairs@ => pairs@[i as int]));
                    assert(decreases_to!(pairs@[i as int] => pairs@[i as int].1));
                }
                let pair = &pairs[i];
                encode_bytes_into(&pair.0, out);
                encode_into(&pair.1, out);
                proof {
                    let tail = encoded_pairs(views.skip(i + 1));
                    let key = encoded_bytes(pairs@[i as int].0@);
                    let val = encoded(pairs@[i as int].1@);
                    assert(before + (key + val + tail) =~= out@ + tail);
                }
                i += 1;
            }
            proof {
                assert(views.skip(i as int) =~= seq![]);
                assert(out@ + encoded_pairs(views.skip(i as int)) =~= out@);
            }
            out.push(101);
            proof {
                assert(out@ =~= first + encoded(value@));
            }
        },
    }
}

/// Encode a `Value` into its bencode byte representation.
pub fn encode(value: &Value) -> (r: Vec<u8>)
    ensures
        r@ == encoded(value@),
{
    let mut out: Vec<u8> = Vec::new();
    encode_into(value, &mut out);
    proof {
        assert(out@ =~= encoded(value@));
    }
    out
}

/// The numerals of bytes, with a comma between neighbours.
pub open spec fn debug_bytes(b: Seq<u8>) -> Seq<char>
    decreases b.len(),
{
    if b.len() == 0 {
        seq![]
    } else if b.len() == 1 {
        decimal::digits(b[0] as nat)
    } else {
        debug_bytes(b.drop_last()) + ", "@ + decimal::digits(b.last() as nat)
    }
}

/// A value as it is shown for debugging.
pub open spec fn debug_value(v: ValueView) -> Seq<char>
    decreases v,
{
    match v {
        ValueView::Bytes(b) => "Bytes(["@ + debug_bytes(b) + "])"@,
        ValueView::Integer(n) => "Integer("@ + decimal::decimal(n as int) + ")"@,
        ValueView::List(items) => "List(["@ + debug_items(items) + "])"@,
        ValueView::Dict(pairs) => "Dict(["@ + debug_pairs(pairs) + "])"@,
    }
}

/// Values as they are shown for debugging, with a comma between neighbours.
pub open spec fn debug_items(items: Seq<ValueView>) -> Seq<char>
    decreases items,
{
    if items.len() == 0 {
        seq![]
    } else if items.len() == 1 {
        debug_value(items[0])
    } else {
        debug_items(items.drop_last()) + ", "@ + debug_value(items.last())
    }
}

/// A pair as it is shown for debugging.
pub open spec fn debug_pair(key: Seq<u8>, shown: Seq<char>) -> Seq<char> {
    "(["@ + debug_bytes(key) + "], "@ + shown + ")"@
}

/// Pairs as they are shown for debugging, with a comma between neighbours.
pub open spec fn debug_pairs(pairs: Seq<(Seq<u8>, ValueView)>) -> Seq<char>
    decreases pairs,
{
    if pairs.len() == 0 {
        seq![]
    } else if pairs.len() == 1 {
        debug_pair(pairs[0].0, debug_value(pairs[0].1))
    } else {
        debug_pairs(pairs.drop_last()) + ", "@ + debug_pair(
            pairs.last().0,
            debug_value(pairs.last().1),
        )
    }
}

/// The numerals of bytes, with a comma between neighbours.
fn bytes_debug_text(b: &Vec<u8>) -> (r: String)
    ensures
        r@ == debug_bytes(b@),
{
    let mut out = String::new();
    let mut i: usize = 0;
    proof {
        assert(b@.take(0) =~= seq![]);
    }
    while i < b.len()
        invariant
            i <= b.len(),
            out@ == debug_bytes(b@.take(i as int)),
        decreases b.len() - i,
    {
        proof {
            assert(b@.take(i + 1).drop_last() == b@.take(i as int));
            assert(b@.take(i + 1).last() == b@[i as int]);
        }
        let numeral = u64_text(b[i] as u64);
        if i > 0 {
            out.append(", ");
        }
        out.append(numeral.as_str());
        proof {
            if i == 0 {
                assert(out@ =~= numeral@);
            }
        }
        i += 1;
    }
    proof {
        assert(b@.take(i as int) == b@);
    }
    out
}

/// A value as it is shown for debugging.
pub fn debug_text(value: &Value) -> (r: String)
    ensures
        r@ == debug_value(value@),
    decreases value,
{
    match value {
        Value::Bytes(b) => {
            let mut out = "Bytes([".to_owned();
            out.append(bytes_debug_text(b).as_str());
            out.append("])");
            out
        },
        Value::Integer(n) => {
            let mut out = "Integer(".to_owned();
            out.append(i64_text(*n).as_str());
            out.append(")");
            out
        },
        Value::List(items) => {
            let ghost views = value_views(items@);
            let mut inner = String::new();
            let mut i: usize = 0;
            proof {
                lemma_list_view(*items);
                assert(views.take(0) =~= seq![]);
            }
            while i < items.len()
                invariant
                    i <= items.len(),
                    views == value_views(items@),
                    inner@ == debug_items(views.take(i as int)),
                    *value == Value::List(*items),
                decreases items.len() - i,
            {
                proof {
                    assert(decreases_to!(*value => value->List_0));
                    assert(decreases_to!(*items => items@));
                    assert(decreases_to!(items@ => items@[i as int]));
                    assert(views.take(i + 1).drop_last() == views.take(i as int));
                    assert(views.take(i + 1).last() == items@[i as int]@);
                }
                let shown = debug_text(&items[i]);
                if i > 0 {
                    inner.append(", ");
                }
                inner.append(shown.as_str());
                proof {
                    if i == 0 {
                        assert(inner@ =~= shown@);
                    }
                }
                i += 1;
            }
            proof {
                assert(views.take(i as int) == views);
            }
            let mut out = "List([".to_owned();
            out.append(inner.as_str());
            out.append("])");
            out
        },
        Value::Dict(pairs) => {
            let ghost views = pair_views(pairs@);
            let mut inner = String::new();
            let mut i: usize = 0;
            proof {
                lemma_dict_view(*pairs);
                assert(views.take(0) =~= seq![]);
            }
            while i < pairs.len()
                invariant
                    i <= pairs.len(),
                    views == pair_views(pairs@),
                    inner@ == debug_pairs(views.take(i as int)),
                    *value == Value::Dict(*pairs),
                decreases pairs.len() - i,
            {
                proof {
                    assert(decreases_to!(*value => value->Dict_0));
                    assert(decreases_to!(*pairs => pairs@));
                    assert(decreases_to!(pairs@ => pairs@[i as int]));
                    assert(decreases_to!(pairs@[i as int] => pairs@[i as int].1));
                    assert(views.take(i + 1).drop_last() == views.take(i as int));
                    assert(views.take(i + 1).last() == (pairs@[i as int].0@, pairs@[i as int].1@));
                }
                let pair = &pairs[i];
                let shown = debug_text(&pair.1);
                let mut part = "([".to_owned();
                part.append(bytes_debug_text(&pair.0).as_str());
                part.append("], ");
                part.append(shown.as_str());
                part.append(")");
                if i > 0 {
                    inner.append(", ");
                }
                inner.append(part.as_str());
                proof {
                    if i == 0 {
                        assert(inner@ =~= part@);
                    }
                }
                i += 1;
            }
            proof {
                assert(views.take(i as int) == views);
            }
            let mut out = "Dict([".to_owned();
            out.append(inner.as_str());
            out.append("])");
            out
        },
    }
}

/// The index of the first byte `b` in `s`, or the length of `s`.
pub open spec fn byte_index(s: Seq<u8>, b: u8) -> int
    decreases s.len(),
{
    if s.len() == 0 || s[0] == b {
        0
    } else {
        1 + byte_index(s.skip(1), b)
    }
}

/// An occurrence with none before it is the first one.
proof fn lemma_byte_index_is(s: Seq<u8>, b: u8, n: int)
    requires
        0 <= n <= s.len(),
        n < s.len() ==> s[n] == b,
        forall|k: int| 0 <= k < n ==> s[k] != b,
    ensures
        byte_index(s, b) == n,
    decreases s.len(),
{
    if n > 0 {
        assert(s[0] != b);
        let t = s.skip(1);
        assert forall|k: int| 0 <= k < n - 1 implies t[k] != b by {
            assert(t[k] == s[k + 1]);
        }
        lemma_byte_index_is(t, b, n - 1);
    }
}

/// The index of the first byte `b` in `s`, or the length of `s`.
fn find_byte(s: &[u8], b: u8) -> (r: usize)
    ensures
        r == byte_index(s@, b),
        r <= s@.len(),
{
    let mut i: usize = 0;
    while i < s.len()
        invariant
            i <= s@.len(),
            forall|k: int| 0 <= k < i ==> s@[k] != b,
        decreases s@.len() - i,
    {
        if s[i] == b {
            proof {
                lemma_byte_index_is(s@, b, i as int);
            }
            return i;
        }
        i += 1;
    }
    proof {
        lemma_byte_index_is(s@, b, i as int);
    }
    i
}

/// The character of a hexadecimal digit.
pub open spec fn hex_char(d: int) -> char {
    if d < 10 {
        decimal::digit_char(d)
    } else {
        ('a' as int + d - 10) as char
    }
}

/// A byte as two hexadecimal digits.
pub open spec fn hex_byte(b: u8) -> Seq<char> {
    seq![hex_char(b as int / 16), hex_char(b as int % 16)]
}

/// The character of a hexadecimal digit.
fn hex_digit(d: u8) -> (c: char)
    requires
        d < 16,
    ensures
        c == hex_char(d as int),
{
    if d < 10 {
        decimal::digit(d)
    } else {
        (97u8 + (d - 10)) as char
    }
}

/// What the inside of an integer writes.
pub open spec fn decoded_number(inner: Seq<u8>) -> Result<i64, Seq<char>> {
    if !valid_utf8(inner) {
        Err("non-UTF-8 integer"@)
    } else {
        let s = decode_utf8(inner);
        match decimal::parsed_signed(s, i64::MIN as int, i64::MAX as int) {
            Some(n) => Ok(n as i64),
            None => Err("invalid integer '"@ + s + "'"@),
        }
    }
}

/// What the length of a byte string writes.
pub open spec fn decoded_length(prefix: Seq<u8>) -> Result<nat, Seq<char>> {
    if !valid_utf8(prefix) {
        Err("non-UTF-8 length prefix"@)
    } else {
        let s = decode_utf8(prefix);
        match decimal::parsed_unsigned(s, usize::MAX as nat) {
            Some(n) => Ok(n),
            None => Err("invalid length '"@ + s + "'"@),
        }
    }
}

/// The integer that stands at the start of the input, and how many bytes it
/// takes.
pub open spec fn decoded_integer(input: Seq<u8>) -> Result<(ValueView, int), Seq<char>> {
    let end = byte_index(input.skip(1), 101);
    if end >= input.len() - 1 {
        Err("integer missing closing 'e'"@)
    } else {
        match decoded_number(input.subrange(1, 1 + end)) {
            Ok(n) => Ok((ValueView::Integer(n), end + 2)),
            Err(e) => Err(e),
        }
    }
}

/// The byte string that stands at the start of the input, and how many bytes it
/// takes.
pub open spec fn decoded_bytes(input: Seq<u8>) -> Result<(Seq<u8>, int), Seq<char>> {
    let colon = byte_index(input, 58);
    if colon >= input.len() {
        Err("bytes missing ':'"@)
    } else {
        match decoded_length(input.take(colon)) {
            Err(e) => Err(e),
            Ok(len) => if colon + 1 + len > input.len() {
                Err(
                    "truncated bytes: need "@ + decimal::digits(len) + " bytes but only "@
                        + decimal::digits((input.len() - colon - 1) as nat) + " remain"@,
                )
            } else {
                Ok((input.subrange(colon + 1, colon + 1 + len), colon + 1 + len))
            },
        }
    }
}

/// The value that stands at the start of the input, and how many bytes it takes,
/// or the message that says why there is none.
pub open spec fn decoded(input: Seq<u8>) -> Result<(ValueView, int), Seq<char>>
    decreases input.len(), 0int,
{
    if input.len() == 0 {
        Err("unexpected end of input"@)
    } else if input[0] == 105 {
        decoded_integer(input)
    } else if input[0] == 108 {
        match decoded_items(input.skip(1)) {
            Ok((items, n)) => Ok((ValueView::List(items), n + 1)),
            Err(e) => Err(e),
        }
    } else if input[0] == 100 {
        match decoded_pairs(input.skip(1)) {
            Ok((pairs, n)) => Ok((ValueView::Dict(pairs), n + 1)),
            Err(e) => Err(e),
        }
    } else if 48 <= input[0] <= 57 {
        match decoded_bytes(input) {
            Ok((b, n)) => Ok((ValueView::Bytes(b), n)),
            Err(e) => Err(e),
        }
    } else {
        Err("unexpected byte 0x"@ + hex_byte(input[0]) + " at start of value"@)
    }
}

/// The values up to the end of a list, and how many bytes they and the end take.
pub open spec fn decoded_items(input: Seq<u8>) -> Result<(Seq<ValueView>, int), Seq<char>>
    decreases input.len(), 1int,
{
    if input.len() == 0 {
        Err("list missing closing 'e'"@)
    } else if input[0] == 101 {
        Ok((seq![], 1))
    } else {
        match decoded(input) {
            Err(e) => Err(e),
            Ok((v, n)) => if 0 < n <= input.len() {
                match decoded_items(input.skip(n)) {
                    Err(e) => Err(e),
                    Ok((rest, m)) => Ok((seq![v] + rest, n + m)),
                }
            } else {
                Err("list missing closing 'e'"@)
            },
        }
    }
}

/// The pairs up to the end of a dictionary, and how many bytes they and the end
/// take. A key is a byte string.
pub open spec fn decoded_pairs(input: Seq<u8>) -> Result<
    (Seq<(Seq<u8>, ValueView)>, int),
    Seq<char>,
>
    decreases input.len(), 1int,
{
    if input.len() == 0 {
        Err("dict missing closing 'e'"@)
    } else if input[0] == 101 {
        Ok((seq![], 1))
    } else {
        match decoded(input) {
            Err(e) => Err(e),
            Ok((ValueView::Bytes(key), n)) => if 0 < n < input.len() {
                match decoded(input.skip(n)) {
                    Err(e) => Err(e),
                    Ok((v, k)) => if 0 < k <= input.len() - n {
                        match decoded_pairs(input.skip(n + k)) {
                            Err(e) => Err(e),
                            Ok((rest, m)) => Ok((seq![(key, v)] + rest, n + k + m)),
                        }
                    } else {
                        Err("dict missing closing 'e'"@)
                    },
                }
            } else {
                Err("dict missing value after key"@)
            },
            Ok((other, _)) => Err("dict key must be a byte string, got "@ + debug_value(other)),
        }
    }
}

/// A decode error with the given message.
fn fail(message: &str) -> (r: DecodeError)
    ensures
        r@ == message@,
{
    DecodeError(message.to_owned())
}

/// A decode error whose message has `middle` between `left` and `right`.
fn fail_around(left: &str, middle: &str, right: &str) -> (r: DecodeError)
    ensures
        r@ == left@ + middle@ + right@,
{
    let mut out = left.to_owned();
    out.append(middle);
    out.append(right);
    DecodeError(out)
}

/// The view of a decoding result.
pub open spec fn decode_view(r: Result<(Value, usize), DecodeError>) -> Result<
    (ValueView, int),
    Seq<char>,
> {
    match r {
        Ok((v, n)) => Ok((v@, n as int)),
        Err(e) => Err(e@),
    }
}

/// Parse `i<digits>e` at the start of `input`.
pub fn decode_integer(input: &[u8]) -> (r: Result<(Value, usize), DecodeError>)
    requires
        input@.len() > 0,
    ensures
        decode_view(r) == decoded_integer(input@),
        r matches Ok((v, n)) ==> 0 < n <= input@.len(),
{
    let rest = slice_subrange(input, 1, input.len());
    proof {
        assert(rest@ == input@.skip(1));
    }
    let end = find_byte(rest, 101);
    if end == rest.len() {
        return Err(fail("integer missing closing 'e'"));
    }
    let inner = slice_subrange(input, 1, 1 + end);
    match core::str::from_utf8(inner) {
        Err(_) => Err(fail("non-UTF-8 integer")),
        Ok(s) => {
            proof {
                encode_utf8_decode_utf8(s@);
            }
            match parse_i64(s) {
                Some(n) => Ok((Value::Integer(n), end + 2)),
                None => Err(fail_around("invalid integer '", s, "'")),
            }
        },
    }
}

/// Parse `<len>:<data>` at the start of `input`.
pub fn decode_bytes(input: &[u8]) -> (r: Result<(Value, usize), DecodeError>)
    ensures
        decode_view(r) == (match decoded_bytes(input@) {
            Ok((b, n)) => Ok((ValueView::Bytes(b), n)),
            Err(e) => Err(e),
        }),
        r matches Ok((v, n)) ==> 0 < n <= input@.len(),
{
    let colon = find_byte(input, 58);
    if colon == input.len() {
        return Err(fail("bytes missing ':'"));
    }
    let prefix = slice_subrange(input, 0, colon);
    proof {
        assert(prefix@ == input@.take(colon as int));
    }
    match core::str::from_utf8(prefix) {
        Err(_) => Err(fail("non-UTF-8 length prefix")),
        Ok(s) => {
            proof {
                encode_utf8_decode_utf8(s@);
            }
            match parse_usize(s) {
                None => Err(fail_around("invalid length '", s, "'")),
                Some(len) => {
                    let start: usize = colon + 1;
                    let remain: usize = input.len() - start;
                    if len > remain {
                        let mut out = "truncated bytes: need ".to_owned();
                        out.append(usize_text(len).as_str());
                        out.append(" bytes but only ");
                        out.append(usize_text(remain).as_str());
                        out.append(" remain");
                        return Err(DecodeError(out));
                    }
                    let data = slice_subrange(input, start, start + len);
                    let mut b: Vec<u8> = Vec::new();
                    b.extend_from_slice(data);
                    proof {
                        assert(b@ =~= input@.subrange(start as int, start + len));
                    }
                    Ok((Value::Bytes(b), start + len))
                },
            }
        },
    }
}

/// Parse `l<items>e` at the start of `input`.
pub fn decode_list(input: &[u8]) -> (r: Result<(Value, usize), DecodeError>)
    requires
        input@.len() > 0,
    ensures
        decode_view(r) == (match decoded_items(input@.skip(1)) {
            Ok((items, n)) => Ok((ValueView::List(items), n + 1)),
            Err(e) => Err(e),
        }),
        r matches Ok((v, n)) ==> 0 < n <= input@.len(),
    decreases input@.len(), 0int,
{
    let mut items: Vec<Value> = Vec::new();
    let mut pos: usize = 1;
    let ghost whole = decoded_items(input@.skip(1));
    proof {
        assert(value_views(items@) =~= seq![]);
        if whole is Ok {
            assert(value_views(items@) + whole->Ok_0.0 =~= whole->Ok_0.0);
        }
    }
    loop
        invariant
            1 <= pos <= input@.len(),
            whole == decoded_items(input@.skip(1)),
            ({
                let rest = decoded_items(input@.skip(pos as int));
                match rest {
                    Ok((tail, m)) => whole == Ok::<(Seq<ValueView>, int), Seq<char>>(
                        (value_views(items@) + tail, pos - 1 + m),
                    ),
                    Err(e) => whole == Err::<(Seq<ValueView>, int), Seq<char>>(e),
                }
            }),
        decreases input@.len() - pos,
    {
        let rest = slice_subrange(input, pos, input.len());
        proof {
            assert(rest@ == input@.skip(pos as int));
        }
        if pos == input.len() {
            return Err(fail("list missing closing 'e'"));
        }
        if input[pos] == 101 {
            proof {
                lemma_list_view(items);
                assert(value_views(items@) + Seq::<ValueView>::empty() =~= value_views(items@));
            }
            return Ok((Value::List(items), pos + 1));
        }
        let ghost before = items@;
        match decode(rest) {
            Err(e) => {
                return Err(e);
            },
            Ok((v, n)) => {
                let ghost view = v@;
                items.push(v);
                proof {
                    assert(value_views(items@) =~= value_views(before).push(view));
                    assert(rest@.skip(n as int) == input@.skip(pos + n));
                    let tail = decoded_items(input@.skip(pos + n));
                    if tail is Ok {
                        assert(value_views(before) + (seq![view] + tail->Ok_0.0) =~= value_views(
                            items@,
                        ) + tail->Ok_0.0);
                    }
                }
                pos += n;
            },
        }
    }
}

/// Parse `d<pairs>e` at the start of `input`.
pub fn decode_dict(input: &[u8]) -> (r: Result<(Value, usize), DecodeError>)
    requires
        input@.len() > 0,
    ensures
        decode_view(r) == (match decoded_pairs(input@.skip(1)) {
            Ok((pairs, n)) => Ok((ValueView::Dict(pairs), n + 1)),
            Err(e) => Err(e),
        }),
        r matches Ok((v, n)) ==> 0 < n <= input@.len(),
    decreases input@.len(), 0int,
{
    let mut pairs: Vec<(Vec<u8>, Value)> = Vec::new();
    let mut pos: usize = 1;
    let ghost whole = decoded_pairs(input@.skip(1));
    proof {
        assert(pair_views(pairs@) =~= seq![]);
        if whole is Ok {
            assert(pair_views(pairs@) + whole->Ok_0.0 =~= whole->Ok_0.0);
        }
    }
    loop
        invariant
            1 <= pos <= input@.len(),
            whole == decoded_pairs(input@.skip(1)),
            ({
                let rest = decoded_pairs(input@.skip(pos as int));
                match rest {
                    Ok((tail, m)) => whole == Ok::<(Seq<(Seq<u8>, ValueView)>, int), Seq<char>>(
                        (pair_views(pairs@) + tail, pos - 1 + m),
                    ),
                    Err(e) => whole == Err::<(Seq<(Seq<u8>, ValueView)>, int), Seq<char>>(e),
                }
            }),
        decreases input@.len() - pos,
    {
        let rest = slice_subrange(input, pos, input.len());
        proof {
            assert(rest@ == input@.skip(pos as int));
        }
        if pos == input.len() {
            return Err(fail("dict missing closing 'e'"));
        }
        if input[pos] == 101 {
            proof {
                lemma_dict_view(pairs);
                assert(pair_views(pairs@) + Seq::<(Seq<u8>, ValueView)>::empty() =~= pair_views(
                    pairs@,
                ));
            }
            return Ok((Value::Dict(pairs), pos + 1));
        }
        let ghost before = pairs@;
        let (first, n) = match decode(rest) {
            Err(e) => {
                return Err(e);
            },
            Ok((v, n)) => (v, n),
        };
        let key = match first {
            Value::Bytes(b) => b,
            other => {
                let mut out = "dict key must be a byte string, got ".to_owned();
                out.append(debug_text(&other).as_str());
                return Err(DecodeError(out));
            },
        };
        if n == rest.len() {
            return Err(fail("dict missing value after key"));
        }
        let behind = slice_subrange(input, pos + n, input.len());
        proof {
            assert(behind@ == rest@.skip(n as int));
        }
        match decode(behind) {
            Err(e) => {
                return Err(e);
            },
            Ok((v, k)) => {
                let ghost view = (key@, v@);
                pairs.push((key, v));
                proof {
                    assert(pair_views(pairs@) =~= pair_views(before).push(view));
                    assert(rest@.skip(n + k) == input@.skip(pos + n + k));
                    let tail = decoded_pairs(input@.skip(pos + n + k));
                    if tail is Ok {
                        assert(pair_views(before) + (seq![view] + tail->Ok_0.0) =~= pair_views(
                            pairs@,
                        ) + tail->Ok_0.0);
                    }
                }
                pos += n + k;
            },
        }
    }
}

/// Decode a bencode value from `input`.
///
/// Returns the decoded value and the number of bytes consumed.
pub fn decode(input: &[u8]) -> (r: Result<(Value, usize), DecodeError>)
    ensures
        decode_view(r) == decoded(input@),
        r matches Ok((v, n)) ==> 0 < n <= input@.len(),
    decreases input@.len(), 1int,
{
    if input.len() == 0 {
        return Err(fail("unexpected end of input"));
    }
    let b = input[0];
    if b == 105 {
        decode_integer(input)
    } else if b == 108 {
        decode_list(input)
    } else if b == 100 {
        decode_dict(input)
    } else if 48 <= b && b <= 57 {
        decode_bytes(input)
    } else {
        let mut hex = String::new();
        hex.push(hex_digit(b / 16));
        hex.push(hex_digit(b % 16));
        proof {
            assert(hex@ =~= hex_byte(b));
        }
        Err(fail_around("unexpected byte 0x", hex.as_str(), " at start of value"))
    }
}

/// The value of the first pair with the given key, if there is one.
pub open spec fn lookup(pairs: Seq<(Seq<u8>, ValueView)>, key: Seq<u8>) -> Option<ValueView>
    decreases pairs.len(),
{
    if pairs.len() == 0 {
        None
    } else if pairs[0].0 == key {
        Some(pairs[0].1)
    } else {
        lookup(pairs.skip(1), key)
    }
}

/// Whether two byte strings are the same.
fn same_bytes(a: &[u8], b: &[u8]) -> (r: bool)
    ensures
        r == (a@ == b@),
{
    if a.len() != b.len() {
        return false;
    }
    let mut i: usize = 0;
    while i < a.len()
        invariant
            i <= a@.len(),
            a@.len() == b@.len(),
            forall|k: int| 0 <= k < i ==> a@[k] == b@[k],
        decreases a@.len() - i,
    {
        if a[i] != b[i] {
            return false;
        }
        i += 1;
    }
    proof {
        assert(a@ =~= b@);
    }
    true
}

impl Value {
    /// Return inner bytes if this is a `Bytes` variant.
    pub fn as_bytes(&self) -> (r: Option<&[u8]>)
        ensures
            match r {
                Some(b) => self@ == ValueView::Bytes(b@),
                None => !(self@ is Bytes),
            },
    {
        if let Value::Bytes(b) = self {
            Some(b.as_slice())
        } else {
            None
        }
    }

    /// Try to interpret inner bytes as a UTF-8 string.
    pub fn as_str(&self) -> (r: Option<&str>)
        ensures
            match r {
                Some(s) => self@ == ValueView::Bytes(encode_utf8(s@)),
                None => self@ matches ValueView::Bytes(b) ==> !valid_utf8(b),
            },
    {
        match self.as_bytes() {
            Some(b) => match core::str::from_utf8(b) {
                Ok(s) => Some(s),
                Err(_) => None,
            },
            None => None,
        }
    }

    /// Return inner integer if this is an `Integer` variant.
    pub fn as_integer(&self) -> (r: Option<i64>)
        ensures
            match r {
                Some(n) => self@ == ValueView::Integer(n),
                None => !(self@ is Integer),
            },
    {
        if let Value::Integer(n) = self {
            Some(*n)
        } else {
            None
        }
    }

    /// Return inner list if this is a `List` variant.
    pub fn as_list(&self) -> (r: Option<&[Value]>)
        ensures
            match r {
                Some(items) => self@ == ValueView::List(value_views(items@)),
                None => !(self@ is List),
            },
    {
        if let Value::List(items) = self {
            proof {
                lemma_list_view(*items);
            }
            Some(items.as_slice())
        } else {
            None
        }
    }

    /// Return inner dict if this is a `Dict` variant.
    pub fn as_dict(&self) -> (r: Option<&[(Vec<u8>, Value)]>)
        ensures
            match r {
                Some(pairs) => self@ == ValueView::Dict(pair_views(pairs@)),
                None => !(self@ is Dict),
            },
    {
        if let Value::Dict(pairs) = self {
            proof {
                lemma_dict_view(*pairs);
            }
            Some(pairs.as_slice())
        } else {
            None
        }
    }

    /// Look up a key in a `Dict` variant by string key: the value of the first
    /// pair with that key.
    pub fn get(&self, key: &str) -> (r: Option<&Value>)
        ensures
            match r {
                Some(v) => self@ is Dict && lookup(self@->Dict_0, encode_utf8(key@)) == Some(v@),
                None => self@ is Dict ==> lookup(self@->Dict_0, encode_utf8(key@)) is None,
            },
    {
        let pairs = match self.as_dict() {
            Some(pairs) => pairs,
            None => {
                return None;
            },
        };
        let ghost views = pair_views(pairs@);
        let wanted = key.as_bytes();
        let mut i: usize = 0;
        proof {
            assert(views.skip(0) == views);
        }
        while i < pairs.len()
            invariant
                i <= pairs@.len(),
                views == pair_views(pairs@),
                wanted@ == encode_utf8(key@),
                self@ == ValueView::Dict(views),
                lookup(views.skip(i as int), wanted@) == lookup(views, wanted@),
            decreases pairs@.len() - i,
        {
            let pair = &pairs[i];
            proof {
                assert(views.skip(i as int)[0] == (pair.0@, pair.1@));
                assert(views.skip(i as int).skip(1) == views.skip(i + 1));
            }
            if same_bytes(pair.0.as_slice(), wanted) {
                return Some(&pair.1);
            }
            i += 1;
        }
        None
    }

    /// Build a `Dict` from string-key / value pairs.
    pub fn dict(pairs: Vec<(&str, Value)>) -> (r: Self)
        ensures
            r@ == ValueView::Dict(
                pairs@.map_values(|p: (&str, Value)| (encode_utf8(p.0@), p.1@)),
            ),
    {
        let ghost wanted = pairs@.map_values(|p: (&str, Value)| (encode_utf8(p.0@), p.1@));
        let mut out: Vec<(Vec<u8>, Value)> = Vec::new();
        for pair in it: pairs
            invariant
                wanted == it.seq().map_values(|p: (&str, Value)| (encode_utf8(p.0@), p.1@)),
                pair_views(out@) == wanted.take(it.index() as int),
        {
            let (key, value) = pair;
            let ghost before = out@;
            let mut bytes: Vec<u8> = Vec::new();
            bytes.extend_from_slice(key.as_bytes());
            proof {
                assert(bytes@ =~= encode_utf8(key@));
            }
            let ghost view = (bytes@, value@);
            out.push((bytes, value));
            proof {
                assert(pair_views(out@) =~= pair_views(before).push(view));
                assert(wanted.take(it.index() as int + 1) =~= wanted.take(it.index() as int).push(
                    wanted[it.index() as int],
                ));
            }
        }
        proof {
            lemma_dict_view(out);
            assert(wanted.take(wanted.len() as int) =~= wanted);
        }
        Value::Dict(out)
    }

    /// Build a `Bytes` value from a string slice.
    pub fn string(s: &str) -> (r: Self)
        ensures
            r@ == ValueView::Bytes(encode_utf8(s@)),
    {
        let mut bytes: Vec<u8> = Vec::new();
        bytes.extend_from_slice(s.as_bytes());
        proof {
            assert(bytes@ =~= encode_utf8(s@));
        }
        Value::Bytes(bytes)
    }
}

/// Whether every byte string in a value has a length that a machine can count.
pub open spec fn is_small(v: ValueView) -> bool
    decreases v,
{
    match v {
        ValueView::Bytes(b) => b.len() <= usize::MAX,
        ValueView::Integer(_) => true,
        ValueView::List(items) => forall|i: int| 0 <= i < items.len() ==> is_small(#[trigger] items[i]),
        ValueView::Dict(pairs) => forall|i: int|
            0 <= i < pairs.len() ==> (#[trigger] pairs[i]).0.len() <= usize::MAX && is_small(
                pairs[i].1,
            ),
    }
}

/// The values of a program are small.
proof fn lemma_values_are_small(v: Value)
    ensures
        is_small(v@),
    decreases v,
{
    match v {
        Value::Bytes(b) => {
            assert(b.len() == b@.len());
        },
        Value::Integer(_) => {},
        Value::List(items) => {
            lemma_list_view(items);
            let views = value_views(items@);
            assert forall|i: int| 0 <= i < views.len() implies is_small(#[trigger] views[i]) by {
                assert(decreases_to!(v => v->List_0));
                assert(decreases_to!(items => items@));
                assert(decreases_to!(items@ => items@[i]));
                lemma_values_are_small(items@[i]);
            }
        },
        Value::Dict(pairs) => {
            lemma_dict_view(pairs);
            let views = pair_views(pairs@);
            assert forall|i: int| 0 <= i < views.len() implies (#[trigger] views[i]).0.len()
                <= usize::MAX && is_small(views[i].1) by {
                assert(decreases_to!(v => v->Dict_0));
                assert(decreases_to!(pairs => pairs@));
                assert(decreases_to!(pairs@ => pairs@[i]));
                assert(decreases_to!(pairs@[i] => pairs@[i].1));
                lemma_values_are_small(pairs@[i].1);
                assert(pairs@[i].0.len() == pairs@[i].0@.len());
            }
        },
    }
}

/// The bytes of a numeral are its characters.
proof fn lemma_numeral_bytes(s: Seq<char>)
    requires
        forall|k: int| 0 <= k < s.len() ==> decimal::is_digit(#[trigger] s[k]) || s[k] == '-',
    ensures
        encode_utf8(s).len() == s.len(),
        forall|k: int| 0 <= k < s.len() ==> encode_utf8(s)[k] == #[trigger] s[k] as u8,
        valid_utf8(encode_utf8(s)),
        decode_utf8(encode_utf8(s)) == s,
{
    assert(is_ascii_chars(s));
    is_ascii_chars_encode_utf8(s);
    encode_utf8_valid_utf8(s);
    encode_utf8_decode_utf8(s);
    assert forall|k: int| 0 <= k < s.len() implies encode_utf8(s)[k] == #[trigger] s[k] as u8 by {
        assert(s[k] as u8 == encode_utf8(s)[k]);
    }
}

/// A byte string is read back from its bytes, whatever follows them.
proof fn lemma_bytes_read_back(b: Seq<u8>, rest: Seq<u8>)
    requires
        b.len() <= usize::MAX,
    ensures
        decoded_bytes(encoded_bytes(b) + rest) == Ok::<(Seq<u8>, int), Seq<char>>(
            (b, encoded_bytes(b).len() as int),
        ),
        48 <= (encoded_bytes(b) + rest)[0] <= 57,
        encoded_bytes(b).len() > 0,
{
    let s = decimal::digits(b.len());
    let n = encode_utf8(s);
    let input = encoded_bytes(b) + rest;
    decimal::lemma_digits_value(b.len());
    lemma_numeral_bytes(s);
    decimal::law_unsigned_numeral_reads_back(b.len(), usize::MAX as nat);
    assert forall|k: int| 0 <= k < n.len() implies input[k] != 58u8 by {
        assert(input[k] == n[k]);
        assert(n[k] == s[k] as u8);
        assert(decimal::is_digit(s[k]));
    }
    assert(input[n.len() as int] == 58u8);
    lemma_byte_index_is(input, 58, n.len() as int);
    assert(input.take(n.len() as int) =~= n);
    assert(input.subrange(n.len() as int + 1, n.len() as int + 1 + b.len()) =~= b);
    assert(decimal::is_digit(s[0]));
    assert(n[0] == s[0] as u8);
    assert(input[0] == n[0]);
}

/// An integer is read back from its bytes, whatever follows them.
proof fn lemma_integer_reads_back(n: i64, rest: Seq<u8>)
    ensures
        decoded(encoded(ValueView::Integer(n)) + rest) == Ok::<(ValueView, int), Seq<char>>(
            (ValueView::Integer(n), encoded(ValueView::Integer(n)).len() as int),
        ),
{
    let s = decimal::decimal(n as int);
    let bytes = encode_utf8(s);
    let input = encoded(ValueView::Integer(n)) + rest;
    if n < 0 {
        decimal::lemma_digits_value((-(n as int)) as nat);
    } else {
        decimal::lemma_digits_value(n as nat);
    }
    assert forall|k: int| 0 <= k < s.len() implies decimal::is_digit(#[trigger] s[k]) || s[k]
        == '-' by {
        if n < 0 {
            let d = decimal::digits((-(n as int)) as nat);
            if k > 0 {
                assert(s[k] == d[k - 1]);
            }
        }
    }
    lemma_numeral_bytes(s);
    decimal::law_signed_numeral_reads_back(n as int, i64::MIN as int, i64::MAX as int);
    let tail = input.skip(1);
    assert forall|k: int| 0 <= k < bytes.len() implies tail[k] != 101u8 by {
        assert(tail[k] == bytes[k]);
        assert(bytes[k] == s[k] as u8);
        assert(decimal::is_digit(s[k]) || s[k] == '-');
    }
    assert(tail[bytes.len() as int] == 101u8);
    lemma_byte_index_is(tail, 101, bytes.len() as int);
    assert(input.subrange(1, 1 + bytes.len() as int) =~= bytes);
}

/// A value is read back from its bytes, whatever follows them.
proof fn lemma_reads_back(v: ValueView, rest: Seq<u8>)
    requires
        is_small(v),
    ensures
        decoded(encoded(v) + rest) == Ok::<(ValueView, int), Seq<char>>(
            (v, encoded(v).len() as int),
        ),
        encoded(v).len() > 0,
        encoded(v)[0] != 101,
    decreases v, 0int,
{
    let input = encoded(v) + rest;
    match v {
        ValueView::Bytes(b) => {
            lemma_bytes_read_back(b, rest);
            assert(input[0] == encoded(v)[0]);
        },
        ValueView::Integer(n) => {
            lemma_integer_reads_back(n, rest);
        },
        ValueView::List(items) => {
            assert(decreases_to!(v => v->List_0));
            lemma_items_read_back(items, rest);
            assert(input.skip(1) =~= encoded_items(items) + seq![101u8] + rest);
        },
        ValueView::Dict(pairs) => {
            assert(decreases_to!(v => v->Dict_0));
            lemma_pairs_read_back(pairs, rest);
            assert(input.skip(1) =~= encoded_pairs(pairs) + seq![101u8] + rest);
        },
    }
}

/// The values of a list are read back from their bytes.
proof fn lemma_items_read_back(items: Seq<ValueView>, rest: Seq<u8>)
    requires
        forall|i: int| 0 <= i < items.len() ==> is_small(#[trigger] items[i]),
    ensures
        decoded_items(encoded_items(items) + seq![101u8] + rest) == Ok::<
            (Seq<ValueView>, int),
            Seq<char>,
        >((items, encoded_items(items).len() as int + 1)),
    decreases items, 1int,
{
    let input = encoded_items(items) + seq![101u8] + rest;
    if items.len() == 0 {
        assert(items =~= seq![]);
        assert(input[0] == 101);
    } else {
        let first = encoded(items[0]);
        let others = items.skip(1);
        let behind = encoded_items(others) + seq![101u8] + rest;
        assert(input =~= first + behind);
        assert(is_small(items[0]));
        assert(decreases_to!(items => items[0]));
        lemma_reads_back(items[0], behind);
        assert(input[0] == first[0]);
        assert forall|i: int| 0 <= i < others.len() implies is_small(#[trigger] others[i]) by {
            assert(others[i] == items[i + 1]);
        }
        lemma_items_read_back(others, rest);
        assert(input.skip(first.len() as int) =~= behind);
        assert(seq![items[0]] + others =~= items);
    }
}

/// The pairs of a dictionary are read back from their bytes.
proof fn lemma_pairs_read_back(pairs: Seq<(Seq<u8>, ValueView)>, rest: Seq<u8>)
    requires
        forall|i: int|
            0 <= i < pairs.len() ==> (#[trigger] pairs[i]).0.len() <= usize::MAX && is_small(
                pairs[i].1,
            ),
    ensures
        decoded_pairs(encoded_pairs(pairs) + seq![101u8] + rest) == Ok::<
            (Seq<(Seq<u8>, ValueView)>, int),
            Seq<char>,
        >((pairs, encoded_pairs(pairs).len() as int + 1)),
    decreases pairs, 1int,
{
    let input = encoded_pairs(pairs) + seq![101u8] + rest;
    if pairs.len() == 0 {
        assert(pairs =~= seq![]);
        assert(input[0] == 101);
    } else {
        let key = encoded_bytes(pairs[0].0);
        let val = encoded(pairs[0].1);
        let others = pairs.skip(1);
        let behind = encoded_pairs(others) + seq![101u8] + rest;
        assert(pairs[0].0.len() <= usize::MAX && is_small(pairs[0].1));
        assert(input =~= key + (val + behind));
        lemma_bytes_read_back(pairs[0].0, val + behind);
        assert(decoded(input) == Ok::<(ValueView, int), Seq<char>>(
            (ValueView::Bytes(pairs[0].0), key.len() as int),
        ));
        assert(decreases_to!(pairs => pairs[0]));
        assert(decreases_to!(pairs[0] => pairs[0].1));
        lemma_reads_back(pairs[0].1, behind);
        assert(input.skip(key.len() as int) =~= val + behind);
        assert forall|i: int| 0 <= i < others.len() implies (#[trigger] others[i]).0.len()
            <= usize::MAX && is_small(others[i].1) by {
            assert(others[i] == pairs[i + 1]);
        }
        lemma_pairs_read_back(others, rest);
        assert(input.skip(key.len() + val.len() as int) =~= behind);
        assert(seq![pairs[0]] + others =~= pairs);
    }
}

/// Decoding the encoding of a value gives the value back and takes exactly the
/// bytes of the encoding, whatever follows them.
pub proof fn law_decode_inverts_encode(v: Value, rest: Seq<u8>)
    ensures
        decoded(encoded(v@) + rest) == Ok::<(ValueView, int), Seq<char>>(
            (v@, encoded(v@).len() as int),
        ),
{
    lemma_values_are_small(v);
    lemma_reads_back(v@, rest);
}

/// Two values with the same encoding are the same.
pub proof fn law_encode_is_injective(v: Value, w: Value)
    requires
        encoded(v@) == encoded(w@),
    ensures
        v@ == w@,
{
    law_decode_inverts_encode(v, seq![]);
    law_decode_inverts_encode(w, seq![]);
}

/// The index of a byte names its first occurrence, or the end.
proof fn lemma_byte_index(s: Seq<u8>, b: u8)
    ensures
        0 <= byte_index(s, b) <= s.len(),
        byte_index(s, b) < s.len() ==> s[byte_index(s, b)] == b,
        forall|k: int| 0 <= k < byte_index(s, b) ==> s[k] != b,
    decreases s.len(),
{
    if s.len() > 0 && s[0] != b {
        let t = s.skip(1);
        lemma_byte_index(t, b);
        assert forall|k: int| 0 <= k < byte_index(s, b) implies s[k] != b by {
            if k > 0 {
                assert(t[k - 1] == s[k]);
            }
        }
    }
}

/// A byte that occurs has the same index whatever follows.
proof fn lemma_byte_index_extends(s: Seq<u8>, b: u8, rest: Seq<u8>)
    requires
        byte_index(s, b) < s.len(),
    ensures
        byte_index(s + rest, b) == byte_index(s, b),
{
    lemma_byte_index(s, b);
    let n = byte_index(s, b);
    assert forall|k: int| 0 <= k < n implies (s + rest)[k] != b by {
        assert((s + rest)[k] == s[k]);
    }
    lemma_byte_index_is(s + rest, b, n);
}

/// A byte string is the same whatever follows it.
proof fn lemma_bytes_extend(input: Seq<u8>, rest: Seq<u8>)
    requires
        decoded_bytes(input) is Ok,
    ensures
        decoded_bytes(input + rest) == decoded_bytes(input),
        0 < decoded_bytes(input)->Ok_0.1 <= input.len(),
{
    let colon = byte_index(input, 58);
    lemma_byte_index(input, 58);
    lemma_byte_index_extends(input, 58, rest);
    assert((input + rest).take(colon) =~= input.take(colon));
    let len = decoded_length(input.take(colon))->Ok_0;
    assert((input + rest).subrange(colon + 1, colon + 1 + len) =~= input.subrange(
        colon + 1,
        colon + 1 + len,
    ));
}

/// A value is the same whatever follows it.
proof fn lemma_decoded_extends(input: Seq<u8>, rest: Seq<u8>)
    requires
        decoded(input) is Ok,
    ensures
        decoded(input + rest) == decoded(input),
        0 < decoded(input)->Ok_0.1 <= input.len(),
    decreases input.len(), 0int,
{
    let longer = input + rest;
    assert(longer[0] == input[0]);
    assert(longer.skip(1) =~= input.skip(1) + rest);
    if input[0] == 105 {
        let end = byte_index(input.skip(1), 101);
        lemma_byte_index(input.skip(1), 101);
        lemma_byte_index_extends(input.skip(1), 101, rest);
        assert(longer.subrange(1, 1 + end) =~= input.subrange(1, 1 + end));
    } else if input[0] == 108 {
        lemma_items_extend(input.skip(1), rest);
    } else if input[0] == 100 {
        lemma_pairs_extend(input.skip(1), rest);
    } else {
        lemma_bytes_extend(input, rest);
    }
}

/// The values of a list are the same whatever follows its end.
proof fn lemma_items_extend(input: Seq<u8>, rest: Seq<u8>)
    requires
        decoded_items(input) is Ok,
    ensures
        decoded_items(input + rest) == decoded_items(input),
        0 < decoded_items(input)->Ok_0.1 <= input.len(),
    decreases input.len(), 1int,
{
    let longer = input + rest;
    assert(longer[0] == input[0]);
    if input[0] != 101 {
        lemma_decoded_extends(input, rest);
        let n = decoded(input)->Ok_0.1;
        assert(longer.skip(n) =~= input.skip(n) + rest);
        lemma_items_extend(input.skip(n), rest);
    }
}

/// The pairs of a dictionary are the same whatever follows its end.
proof fn lemma_pairs_extend(input: Seq<u8>, rest: Seq<u8>)
    requires
        decoded_pairs(input) is Ok,
    ensures
        decoded_pairs(input + rest) == decoded_pairs(input),
        0 < decoded_pairs(input)->Ok_0.1 <= input.len(),
    decreases input.len(), 1int,
{
    let longer = input + rest;
    assert(longer[0] == input[0]);
    if input[0] != 101 {
        lemma_decoded_extends(input, rest);
        let n = decoded(input)->Ok_0.1;
        assert(longer.skip(n) =~= input.skip(n) + rest);
        lemma_decoded_extends(input.skip(n), rest);
        let k = decoded(input.skip(n))->Ok_0.1;
        assert(longer.skip(n + k) =~= input.skip(n + k) + rest);
        lemma_pairs_extend(input.skip(n + k), rest);
    }
}

/// What is cut off before the end of an encoding is refused.
pub proof fn law_truncated_encoding_is_refused(v: Value, n: int)
    requires
        0 <= n < encoded(v@).len(),
    ensures
        decoded(encoded(v@).take(n)) is Err,
{
    let all = encoded(v@);
    let input = all.take(n);
    let rest = all.skip(n);
    if decoded(input) is Ok {
        lemma_decoded_extends(input, rest);
        assert(input + rest =~= all);
        assert(all + Seq::<u8>::empty() =~= all);
        law_decode_inverts_encode(v, seq![]);
    }
}

/// The items of a list, and the pairs of a dictionary, are shown one behind the other with
/// a comma between them.
pub proof fn law_shown_values_are_listed(
    a: Seq<ValueView>,
    b: Seq<ValueView>,
    x: Seq<(Seq<u8>, ValueView)>,
    y: Seq<(Seq<u8>, ValueView)>,
)
    ensures
        a.len() > 0 && b.len() > 0 ==> debug_items(a + b) == debug_items(a) + ", "@ + debug_items(
            b,
        ),
        x.len() > 0 && y.len() > 0 ==> debug_pairs(x + y) == debug_pairs(x) + ", "@ + debug_pairs(
            y,
        ),
    decreases b.len() + y.len(),
{
    if a.len() > 0 && b.len() > 0 {
        let all = a + b;
        assert(all.drop_last() =~= a + b.drop_last());
        assert(all.last() == b.last());
        if b.len() == 1 {
            assert(all.drop_last() =~= a);
        } else {
            law_shown_values_are_listed(a, b.drop_last(), x, seq![]);
        }
        assert(debug_items(all) =~= debug_items(a) + ", "@ + debug_items(b));
    }
    if x.len() > 0 && y.len() > 0 {
        let all = x + y;
        assert(all.drop_last() =~= x + y.drop_last());
        assert(all.last() == y.last());
        if y.len() == 1 {
            assert(all.drop_last() =~= x);
        } else {
            law_shown_values_are_listed(a, seq![], x, y.drop_last());
        }
        assert(debug_pairs(all) =~= debug_pairs(x) + ", "@ + debug_pairs(y));
    }
}

/// A value is shown by its kind and what it holds; a pair by its key and its value.
pub proof fn law_shown_value_has_its_kind(
    bytes: Seq<u8>,
    n: i64,
    items: Seq<ValueView>,
    key: Seq<u8>,
    value: ValueView,
    byte: u8,
)
    ensures
        debug_value(ValueView::Bytes(bytes)) == "Bytes(["@ + debug_bytes(bytes) + "])"@,
        debug_value(ValueView::Integer(n)) == "Integer("@ + decimal::decimal(n as int) + ")"@,
        debug_value(ValueView::List(items)) == "List(["@ + debug_items(items) + "])"@,
        debug_items(seq![value]) == debug_value(value),
        debug_pairs(seq![(key, value)]) == "(["@ + debug_bytes(key) + "], "@ + debug_value(value)
            + ")"@,
        debug_bytes(seq![byte]) == decimal::digits(byte as nat),
        debug_items(seq![]).len() == 0,
        debug_pairs(seq![]).len() == 0,
        debug_bytes(seq![]).len() == 0,
{
}

/// A length that is no number is refused with the text that stands in its place.
pub proof fn law_bad_length_is_refused(words: Seq<char>, rest: Seq<u8>)
    requires
        decimal::parsed_unsigned(words, usize::MAX as nat) is None,
    ensures
        decoded_length(encode_utf8(words)) == Err::<nat, Seq<char>>(
            "invalid length '"@ + words + "'"@,
        ),
{
    encode_utf8_valid_utf8(words);
    encode_utf8_decode_utf8(words);
}

} // verus!
