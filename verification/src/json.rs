//! The beacon answer's wire format: compact JSON encoding of a flat object
//! whose values are strings or arrays of strings, with members in ascending
//! byte order of their keys. Keys and values are handled as raw bytes; the
//! escaping matches what standard JSON tooling emits for a string: `\"`,
//! `\\`, `\b`, `\t`, `\n`, `\f`, `\r`, and `\u00XX` with lowercase hex
//! digits for the remaining control bytes.

use vstd::prelude::*;

verus! {

/// One value of the answer object: a plain string or a list of strings
/// (repeated inventory keys collapse into a list), held as raw bytes.
#[derive(Debug, Clone, PartialEq)]
pub enum InfoValue {
    Text(Vec<u8>),
    List(Vec<Vec<u8>>),
}

/// The mathematical shape of an [`InfoValue`].
pub enum InfoValueView {
    Text(Seq<u8>),
    List(Seq<Seq<u8>>),
}

impl View for InfoValue {
    type V = InfoValueView;

    open spec fn view(&self) -> InfoValueView {
        match self {
            InfoValue::Text(s) => InfoValueView::Text(s@),
            InfoValue::List(items) => InfoValueView::List(items.deep_view()),
        }
    }
}

impl DeepView for InfoValue {
    type V = InfoValueView;

    open spec fn deep_view(&self) -> InfoValueView {
        self.view()
    }
}

/// One member of the answer object.
#[derive(Debug, Clone, PartialEq)]
pub struct InfoEntry {
    pub key: Vec<u8>,
    pub value: InfoValue,
}

impl View for InfoEntry {
    type V = (Seq<u8>, InfoValueView);

    open spec fn view(&self) -> (Seq<u8>, InfoValueView) {
        (self.key@, self.value@)
    }
}

impl DeepView for InfoEntry {
    type V = (Seq<u8>, InfoValueView);

    open spec fn deep_view(&self) -> (Seq<u8>, InfoValueView) {
        self.view()
    }
}

/// Lowercase hexadecimal digit byte for a value below 16, as `\u00XX`
/// escapes use it.
pub open spec fn hex_digit_lower(v: u8) -> u8
    recommends
        v < 16,
{
    if v < 10 {
        (v + ('0' as u8)) as u8
    } else {
        (v - 10 + ('a' as u8)) as u8
    }
}

/// How one byte of a JSON string is written out.
pub open spec fn escape_byte(b: u8) -> Seq<u8> {
    if b == ('"' as u8) {
        seq![('\\' as u8), ('"' as u8)]
    } else if b == ('\\' as u8) {
        seq![('\\' as u8), ('\\' as u8)]
    } else if b == 0x08 {
        seq![('\\' as u8), ('b' as u8)]
    } else if b == 0x09 {
        seq![('\\' as u8), ('t' as u8)]
    } else if b == 0x0a {
        seq![('\\' as u8), ('n' as u8)]
    } else if b == 0x0c {
        seq![('\\' as u8), ('f' as u8)]
    } else if b == 0x0d {
        seq![('\\' as u8), ('r' as u8)]
    } else if b < 0x20 {
        seq![('\\' as u8), ('u' as u8), ('0' as u8), ('0' as u8), hex_digit_lower(b / 16), hex_digit_lower(b % 16)]
    } else {
        seq![b]
    }
}

/// The escaping of the first `i` bytes of a string.
pub open spec fn escape_bytes_prefix(s: Seq<u8>, i: int) -> Seq<u8>
    decreases i,
{
    if i <= 0 {
        Seq::empty()
    } else {
        escape_bytes_prefix(s, i - 1) + escape_byte(s[i - 1])
    }
}

/// The escaping of a whole string's bytes.
pub open spec fn escape_bytes(s: Seq<u8>) -> Seq<u8> {
    escape_bytes_prefix(s, s.len() as int)
}

/// A JSON string: the escaped bytes between double quotes.
pub open spec fn json_string_bytes(s: Seq<u8>) -> Seq<u8> {
    seq![('"' as u8)] + escape_bytes(s) + seq![('"' as u8)]
}

/// The opening of a JSON array holding the first `i` strings.
pub open spec fn json_array_prefix(items: Seq<Seq<u8>>, i: int) -> Seq<u8>
    decreases i,
{
    if i <= 0 {
        seq![('[' as u8)]
    } else if i == 1 {
        seq![('[' as u8)] + json_string_bytes(items[0])
    } else {
        json_array_prefix(items, i - 1) + seq![(',' as u8)] + json_string_bytes(items[i - 1])
    }
}

/// A JSON array of strings.
pub open spec fn json_array_bytes(items: Seq<Seq<u8>>) -> Seq<u8> {
    json_array_prefix(items, items.len() as int) + seq![(']' as u8)]
}

/// A JSON value of the answer object.
pub open spec fn json_value_bytes(v: InfoValueView) -> Seq<u8> {
    match v {
        InfoValueView::Text(s) => json_string_bytes(s),
        InfoValueView::List(items) => json_array_bytes(items),
    }
}

/// One `"key":value` member.
pub open spec fn json_member_bytes(key: Seq<u8>, v: InfoValueView) -> Seq<u8> {
    json_string_bytes(key) + seq![(':' as u8)] + json_value_bytes(v)
}

/// The opening of a JSON object holding the first `i` members.
pub open spec fn json_object_prefix(entries: Seq<(Seq<u8>, InfoValueView)>, i: int) -> Seq<u8>
    decreases i,
{
    if i <= 0 {
        seq![('{' as u8)]
    } else if i == 1 {
        seq![('{' as u8)] + json_member_bytes(entries[0].0, entries[0].1)
    } else {
        json_object_prefix(entries, i - 1) + seq![(',' as u8)] + json_member_bytes(
            entries[i - 1].0,
            entries[i - 1].1,
        )
    }
}

/// A whole JSON object, compact, members in the given order.
pub open spec fn json_object_bytes(entries: Seq<(Seq<u8>, InfoValueView)>) -> Seq<u8> {
    json_object_prefix(entries, entries.len() as int) + seq![('}' as u8)]
}

/// Lowercase hexadecimal digit byte for a value below 16.
fn hex_digit_lower_byte(v: u8) -> (b: u8)
    requires
        v < 16,
    ensures
        b == hex_digit_lower(v),
{
    if v < 10 {
        v + 0x30
    } else {
        v - 10 + 0x61
    }
}

/// Writes one byte of a JSON string, escaped as `escape_byte` says.
fn push_escaped_byte(out: &mut Vec<u8>, b: u8)
    ensures
        final(out)@ == old(out)@ + escape_byte(b),
{
    if b == 0x22 {
        out.push(0x5c);
        out.push(0x22);
    } else if b == 0x5c {
        out.push(0x5c);
        out.push(0x5c);
    } else if b == 0x08 {
        out.push(0x5c);
        out.push(0x62);
    } else if b == 0x09 {
        out.push(0x5c);
        out.push(0x74);
    } else if b == 0x0a {
        out.push(0x5c);
        out.push(0x6e);
    } else if b == 0x0c {
        out.push(0x5c);
        out.push(0x66);
    } else if b == 0x0d {
        out.push(0x5c);
        out.push(0x72);
    } else if b < 0x20 {
        out.push(0x5c);
        out.push(0x75);
        out.push(0x30);
        out.push(0x30);
        out.push(hex_digit_lower_byte(b / 16));
        out.push(hex_digit_lower_byte(b % 16));
    } else {
        out.push(b);
    }
    assert(final(out)@ =~= old(out)@ + escape_byte(b));
}

/// Writes a quoted, escaped JSON string.
fn append_json_string(out: &mut Vec<u8>, s: &[u8])
    ensures
        final(out)@ == old(out)@ + json_string_bytes(s@),
{
    out.push(0x22);
    let n: usize = s.len();
    let mut i: usize = 0;
    while i < n
        invariant
            n == s@.len(),
            i <= n,
            out@ == old(out)@ + seq![('"' as u8)] + escape_bytes_prefix(s@, i as int),
        decreases n - i,
    {
        push_escaped_byte(out, s[i]);
        i = i + 1;
    }
    out.push(0x22);
    assert(final(out)@ =~= old(out)@ + json_string_bytes(s@));
}

/// Writes a JSON value: a string, or an array of strings.
fn append_json_value(out: &mut Vec<u8>, v: &InfoValue)
    ensures
        final(out)@ == old(out)@ + json_value_bytes(v@),
{
    match v {
        InfoValue::Text(s) => {
            append_json_string(out, s.as_slice());
        },
        InfoValue::List(items) => {
            out.push(0x5b);
            let n: usize = items.len();
            let mut i: usize = 0;
            while i < n
                invariant
                    n == items@.len(),
                    i <= n,
                    out@ == old(out)@ + json_array_prefix(items.deep_view(), i as int),
                decreases n - i,
            {
                if i > 0 {
                    out.push(0x2c);
                }
                append_json_string(out, items[i].as_slice());
                assert(items.deep_view()[i as int] == items@[i as int]@);
                i = i + 1;
            }
            out.push(0x5d);
            assert(final(out)@ =~= old(out)@ + json_value_bytes(v@));
        },
    }
}

/// Encodes a whole object, members in the order given.
pub fn encode_json_object(entries: &Vec<InfoEntry>) -> (r: Vec<u8>)
    ensures
        r@ == json_object_bytes(entries.deep_view()),
{
    let mut out: Vec<u8> = Vec::new();
    out.push(0x7b);
    let n: usize = entries.len();
    let mut i: usize = 0;
    while i < n
        invariant
            n == entries@.len(),
            i <= n,
            out@ == json_object_prefix(entries.deep_view(), i as int),
        decreases n - i,
    {
        if i > 0 {
            out.push(0x2c);
        }
        let e = &entries[i];
        append_json_string(&mut out, e.key.as_slice());
        out.push(0x3a);
        append_json_value(&mut out, &e.value);
        assert(entries.deep_view()[i as int] == entries@[i as int]@);
        i = i + 1;
    }
    out.push(0x7d);
    assert(out@ =~= json_object_bytes(entries.deep_view()));
    out
}

} // verus!
