//! Defensive rendering of opaque byte payloads, and the byte-level text
//! helpers shared by the codec: every inbound payload must render to a
//! human-readable string, whatever bytes it holds.

use vstd::prelude::*;
use vstd::slice::{slice_index_get, slice_subrange, slice_to_vec};
use vstd::string::{StrSliceExecFns, StringExecFns, StringSliceAdditionalSpecFns};
use vstd::utf8::{decode_utf8, encode_utf8_decode_utf8, valid_utf8};

verus! {

/// Uppercase hexadecimal digit for a value below 16, as `{:02X?}` prints it.
pub open spec fn hex_digit(v: u8) -> char
    recommends
        v < 16,
{
    if v < 10 {
        ((v + ('0' as u8)) as u8) as char
    } else {
        ((v - 10 + ('A' as u8)) as u8) as char
    }
}

/// Two uppercase hexadecimal digits for one byte.
pub open spec fn hex_byte(b: u8) -> Seq<char> {
    seq![hex_digit(b / 16), hex_digit(b % 16)]
}

/// The first `i` bytes rendered as the opening of a `[1F, 20, FF]` list.
pub open spec fn hex_list_prefix(bytes: Seq<u8>, i: int) -> Seq<char>
    decreases i,
{
    if i <= 0 {
        seq!['[']
    } else if i == 1 {
        seq!['['] + hex_byte(bytes[0])
    } else {
        hex_list_prefix(bytes, i - 1) + seq![',', ' '] + hex_byte(bytes[i - 1])
    }
}

/// A whole byte sequence rendered as `{:02X?}` prints a byte slice:
/// `[1F, 20, FF]`, or `[]` when empty.
pub open spec fn hex_byte_list(bytes: Seq<u8>) -> Seq<char> {
    hex_list_prefix(bytes, bytes.len() as int) + seq![']']
}

/// The fallback rendering of bytes that are not valid UTF-8.
pub open spec fn invalid_utf8_chars(bytes: Seq<u8>) -> Seq<char> {
    "INVALID UTF-8: "@ + hex_byte_list(bytes)
}

/// What `safe_format_bytes` returns: the decoded text when the bytes are
/// valid UTF-8, and the hex-list fallback otherwise. Total and deterministic
/// for every byte sequence.
pub open spec fn safe_format_bytes_spec(bytes: Seq<u8>) -> Seq<char> {
    if valid_utf8(bytes) {
        decode_utf8(bytes)
    } else {
        invalid_utf8_chars(bytes)
    }
}

/// Index of the first occurrence of `b` in `s` at or after `i`, or `s.len()`
/// when there is none.
pub open spec fn find_byte(s: Seq<u8>, b: u8, i: int) -> int
    recommends
        0 <= i <= s.len(),
    decreases s.len() - i,
{
    if i < 0 || i >= s.len() {
        s.len() as int
    } else if s[i] == b {
        i
    } else {
        find_byte(s, b, i + 1)
    }
}

pub proof fn lemma_find_byte(s: Seq<u8>, b: u8, i: int, m: int)
    requires
        0 <= i <= m <= s.len(),
        forall|k: int| i <= k < m ==> s[k] != b,
        m < s.len() ==> s[m] == b,
    ensures
        find_byte(s, b, i) == m,
    decreases m - i,
{
    if i < m {
        lemma_find_byte(s, b, i + 1, m);
    }
}

/// A line with one trailing carriage return stripped: what `str::lines`
/// keeps of a line that a line feed ended.
pub open spec fn strip_cr(line: Seq<u8>) -> Seq<u8> {
    if line.len() > 0 && line.last() == 0x0d {
        line.drop_last()
    } else {
        line
    }
}

/// Text split into lines as `str::lines` does it: lines end at a line
/// feed, a line the feed ended loses one trailing carriage return, and a
/// final line feed does not open an empty last line.
pub open spec fn split_lines(s: Seq<u8>) -> Seq<Seq<u8>>
    decreases s.len(),
{
    if s.len() == 0 {
        Seq::empty()
    } else {
        let j = find_byte(s, 0x0a, 0);
        if 0 <= j < s.len() {
            seq![strip_cr(s.take(j))] + split_lines(s.skip(j + 1))
        } else {
            seq![s]
        }
    }
}

/// Splits text into lines, as `split_lines` describes.
pub fn split_lines_vec(bytes: &[u8]) -> (r: Vec<Vec<u8>>)
    ensures
        r.deep_view() == split_lines(bytes@),
{
    let n: usize = bytes.len();
    let mut r: Vec<Vec<u8>> = Vec::new();
    let mut i: usize = 0;
    proof {
        assert(bytes@.skip(0) =~= bytes@);
        assert(r.deep_view() =~= Seq::<Seq<u8>>::empty());
        assert(Seq::<Seq<u8>>::empty() + split_lines(bytes@) =~= split_lines(bytes@));
    }
    while i < n
        invariant
            n == bytes@.len(),
            i <= n,
            split_lines(bytes@) == r.deep_view() + split_lines(bytes@.skip(i as int)),
        decreases n - i,
    {
        let ghost prev = r.deep_view();
        let ghost t = bytes@.skip(i as int);
        let mut j: usize = i;
        while j < n && *slice_index_get(bytes, j) != 0x0a
            invariant
                i <= j <= n,
                n == bytes@.len(),
                forall|k: int| i <= k < j ==> bytes@[k] != 0x0a,
            decreases n - j,
        {
            j = j + 1;
        }
        let end: usize = if j < n && j > i && *slice_index_get(bytes, j - 1) == 0x0d {
            j - 1
        } else {
            j
        };
        let line = slice_to_vec(slice_subrange(bytes, i, end));
        proof {
            lemma_find_byte(t, 0x0a, 0, j - i);
            if j < n {
                assert(t.take(j - i) =~= bytes@.subrange(i as int, j as int));
                assert(t.skip(j - i + 1) =~= bytes@.skip(j + 1));
            } else {
                assert(t =~= bytes@.subrange(i as int, j as int));
            }
            if j < n && j > i && bytes@[j - 1] == 0x0d {
                assert(bytes@.subrange(i as int, j as int).drop_last() =~= bytes@.subrange(
                    i as int,
                    j - 1,
                ));
            }
            if j < n {
                assert(line@ == strip_cr(bytes@.subrange(i as int, j as int)));
            } else {
                assert(line@ == bytes@.subrange(i as int, j as int));
            }
        }
        r.push(line);
        proof {
            assert(r.deep_view() =~~= prev.push(line@));
            let rest = if j < n {
                split_lines(bytes@.skip(j + 1))
            } else {
                Seq::<Seq<u8>>::empty()
            };
            if j == n {
                assert(bytes@.skip(n as int) =~= Seq::<u8>::empty());
                assert(split_lines(t) =~= seq![line@] + rest);
            } else {
                assert(split_lines(t) == seq![line@] + rest);
            }
            assert(prev + (seq![line@] + rest) =~= prev.push(line@) + rest);
        }
        i = if j < n {
            j + 1
        } else {
            j
        };
    }
    proof {
        assert(bytes@.skip(n as int) =~= Seq::<u8>::empty());
        assert(r.deep_view() =~= r.deep_view() + split_lines(bytes@.skip(n as int)));
    }
    r
}

/// Lowercase hexadecimal digit for a value below 16, as `\u00XX` escapes
/// print it.
pub open spec fn hex_digit_lower_char(v: u8) -> char
    recommends
        v < 16,
{
    if v < 10 {
        ((v + ('0' as u8)) as u8) as char
    } else {
        ((v - 10 + ('a' as u8)) as u8) as char
    }
}

/// How one character of rendered text is escaped inside a JSON string:
/// the named escapes for quote, backslash and the common control characters,
/// `\u00XX` with lowercase hex for the remaining control characters, and the
/// character itself for everything else.
pub open spec fn escape_char(c: char) -> Seq<char> {
    if c == '"' {
        seq!['\\', '"']
    } else if c == '\\' {
        seq!['\\', '\\']
    } else if c as u32 == 0x08 {
        seq!['\\', 'b']
    } else if c as u32 == 0x09 {
        seq!['\\', 't']
    } else if c as u32 == 0x0a {
        seq!['\\', 'n']
    } else if c as u32 == 0x0c {
        seq!['\\', 'f']
    } else if c as u32 == 0x0d {
        seq!['\\', 'r']
    } else if (c as u32) < 0x20 {
        let u = c as u32;
        seq!['\\', 'u', '0', '0', hex_digit_lower_char((u / 16) as u8), hex_digit_lower_char((u % 16) as u8)]
    } else {
        seq![c]
    }
}

/// The escaping of the first `i` characters of a text.
pub open spec fn escape_chars_prefix(s: Seq<char>, i: int) -> Seq<char>
    decreases i,
{
    if i <= 0 {
        Seq::empty()
    } else {
        escape_chars_prefix(s, i - 1) + escape_char(s[i - 1])
    }
}

/// The escaping of a whole text.
pub open spec fn escape_chars(s: Seq<char>) -> Seq<char> {
    escape_chars_prefix(s, s.len() as int)
}

/// A character that the JSON string escaping leaves as it is.
pub open spec fn plain_char(c: char) -> bool {
    c != '"' && c != '\\' && (c as u32) >= 0x20
}

/// Escaping text made of plain characters leaves it unchanged.
pub proof fn lemma_escape_plain_chars(s: Seq<char>)
    requires
        forall|i: int| 0 <= i < s.len() ==> plain_char(#[trigger] s[i]),
    ensures
        escape_chars(s) == s,
{
    lemma_escape_plain_chars_prefix(s, s.len() as int);
    assert(escape_chars(s) =~= s);
}

proof fn lemma_escape_plain_chars_prefix(s: Seq<char>, i: int)
    requires
        0 <= i <= s.len(),
        forall|k: int| 0 <= k < s.len() ==> plain_char(#[trigger] s[k]),
    ensures
        escape_chars_prefix(s, i) == s.take(i),
    decreases i,
{
    if i <= 0 {
        assert(escape_chars_prefix(s, i) =~= s.take(i));
    } else {
        lemma_escape_plain_chars_prefix(s, i - 1);
        assert(escape_char(s[i - 1]) == seq![s[i - 1]]);
        assert(s.take(i - 1) + seq![s[i - 1]] =~= s.take(i));
    }
}

/// Appends one character of text, escaped as `escape_char` says.
pub(crate) fn push_escaped_char(out: &mut String, c: char)
    ensures
        final(out)@ == old(out)@ + escape_char(c),
{
    let ghost pre = out@;
    let u = c as u32;
    if c == '"' {
        out.append("\\\"");
        proof {
            reveal_strlit("\\\"");
            assert(pre + "\\\""@ =~= pre + escape_char(c));
        }
    } else if c == '\\' {
        out.append("\\\\");
        proof {
            reveal_strlit("\\\\");
            assert(pre + "\\\\"@ =~= pre + escape_char(c));
        }
    } else if u == 0x08 {
        out.append("\\b");
        proof {
            reveal_strlit("\\b");
            assert(pre + "\\b"@ =~= pre + escape_char(c));
        }
    } else if u == 0x09 {
        out.append("\\t");
        proof {
            reveal_strlit("\\t");
            assert(pre + "\\t"@ =~= pre + escape_char(c));
        }
    } else if u == 0x0a {
        out.append("\\n");
        proof {
            reveal_strlit("\\n");
            assert(pre + "\\n"@ =~= pre + escape_char(c));
        }
    } else if u == 0x0c {
        out.append("\\f");
        proof {
            reveal_strlit("\\f");
            assert(pre + "\\f"@ =~= pre + escape_char(c));
        }
    } else if u == 0x0d {
        out.append("\\r");
        proof {
            reveal_strlit("\\r");
            assert(pre + "\\r"@ =~= pre + escape_char(c));
        }
    } else if u < 0x20 {
        out.append("\\u00");
        push_char(out, hex_digit_char_lower((u / 16) as u8));
        push_char(out, hex_digit_char_lower((u % 16) as u8));
        proof {
            reveal_strlit("\\u00");
            assert(pre + "\\u00"@ + seq![hex_digit_lower_char((u / 16) as u8)] + seq![
                hex_digit_lower_char((u % 16) as u8),
            ] =~= pre + escape_char(c));
        }
    } else {
        push_char(out, c);
        proof {
            assert(pre + seq![c] =~= pre + escape_char(c));
        }
    }
}

/// Lowercase hexadecimal digit character for a value below 16.
fn hex_digit_char_lower(v: u8) -> (c: char)
    requires
        v < 16,
    ensures
        c == hex_digit_lower_char(v),
{
    let b: u8 = if v < 10 {
        v + 0x30
    } else {
        v - 10 + 0x61
    };
    b as char
}

/// Appends a whole text, escaped as `escape_chars` says.
pub(crate) fn append_escaped_chars(out: &mut String, s: &str)
    ensures
        final(out)@ == old(out)@ + escape_chars(s@),
{
    let n: usize = s.unicode_len();
    let mut i: usize = 0;
    while i < n
        invariant
            n == s@.len(),
            i <= n,
            out@ == old(out)@ + escape_chars_prefix(s@, i as int),
        decreases n - i,
    {
        let c = s.get_char(i);
        push_escaped_char(out, c);
        i = i + 1;
    }
}

/// Strict lexicographic order on byte sequences: the order in which the
/// answer object's keys are laid out.
pub open spec fn bytes_lt(a: Seq<u8>, b: Seq<u8>) -> bool
    decreases a.len(),
{
    if b.len() == 0 {
        false
    } else if a.len() == 0 {
        true
    } else if a[0] < b[0] {
        true
    } else if a[0] > b[0] {
        false
    } else {
        bytes_lt(a.drop_first(), b.drop_first())
    }
}

/// `bytes_lt` is a strict total order: for any two sequences exactly one of
/// `a < b`, `a == b`, `b < a` holds.
pub proof fn lemma_bytes_lt_trichotomy(a: Seq<u8>, b: Seq<u8>)
    ensures
        bytes_lt(a, b) || a == b || bytes_lt(b, a),
        bytes_lt(a, b) ==> !(a == b) && !bytes_lt(b, a),
        a == b ==> !bytes_lt(a, b) && !bytes_lt(b, a),
    decreases a.len(),
{
    if a.len() == 0 || b.len() == 0 {
        if a.len() == b.len() {
            assert(a =~= b);
        }
    } else {
        lemma_bytes_lt_trichotomy(a.drop_first(), b.drop_first());
        if a[0] == b[0] {
            if a.drop_first() == b.drop_first() {
                assert forall|i: int| 0 <= i < a.len() implies a[i] == b[i] by {
                    if i > 0 {
                        assert(a.drop_first()[i - 1] == b.drop_first()[i - 1]);
                    }
                }
                assert(a =~= b);
            }
            if a == b {
                assert(a.drop_first() =~= b.drop_first());
            }
        }
    }
}

/// `bytes_lt` is transitive.
pub proof fn lemma_bytes_lt_transitive(a: Seq<u8>, b: Seq<u8>, c: Seq<u8>)
    requires
        bytes_lt(a, b),
        bytes_lt(b, c),
    ensures
        bytes_lt(a, c),
    decreases a.len(),
{
    if a.len() > 0 && b.len() > 0 && c.len() > 0 && a[0] == b[0] && b[0] == c[0] {
        lemma_bytes_lt_transitive(a.drop_first(), b.drop_first(), c.drop_first());
    }
}

/// Compares two byte strings in the order `bytes_lt` describes.
pub fn bytes_lt_exec(a: &[u8], b: &[u8]) -> (r: bool)
    ensures
        r == bytes_lt(a@, b@),
{
    let an: usize = a.len();
    let bn: usize = b.len();
    let mut i: usize = 0;
    proof {
        assert(a@.skip(0) =~= a@);
        assert(b@.skip(0) =~= b@);
    }
    loop
        invariant
            an == a@.len(),
            bn == b@.len(),
            i <= an,
            i <= bn,
            bytes_lt(a@, b@) == bytes_lt(a@.skip(i as int), b@.skip(i as int)),
            forall|k: int| 0 <= k < i ==> a@[k] == b@[k],
        decreases an - i,
    {
        if i == bn {
            proof {
                assert(b@.skip(i as int).len() == 0);
            }
            return false;
        }
        if i == an {
            proof {
                assert(a@.skip(i as int).len() == 0);
                assert(b@.skip(i as int).len() > 0);
            }
            return true;
        }
        let x = *slice_index_get(a, i);
        let y = *slice_index_get(b, i);
        if x < y {
            return true;
        }
        if x > y {
            return false;
        }
        proof {
            assert(a@.skip(i as int).drop_first() =~= a@.skip(i + 1));
            assert(b@.skip(i as int).drop_first() =~= b@.skip(i + 1));
        }
        i = i + 1;
    }
}

/// Byte-for-byte equality of two byte strings.
pub fn bytes_eq(a: &[u8], b: &[u8]) -> (r: bool)
    ensures
        r == (a@ == b@),
{
    let an: usize = a.len();
    if an != b.len() {
        proof {
            assert(a@ != b@);
        }
        return false;
    }
    let mut i: usize = 0;
    while i < an
        invariant
            an == a@.len(),
            an == b@.len(),
            i <= an,
            forall|k: int| 0 <= k < i ==> a@[k] == b@[k],
        decreases an - i,
    {
        if *slice_index_get(a, i) != *slice_index_get(b, i) {
            return false;
        }
        i = i + 1;
    }
    proof {
        assert(a@ =~= b@);
    }
    true
}

/// Relies on `core::str::from_utf8`: it returns `Ok` exactly when the bytes
/// are valid UTF-8, and the returned `&str` is a view of those same bytes.
#[verifier::external_body]
fn utf8_decode(bytes: &[u8]) -> (r: Option<&str>)
    ensures
        r is Some <==> valid_utf8(bytes@),
        r is Some ==> r->0.spec_bytes() == bytes@,
{
    core::str::from_utf8(bytes).ok()
}

/// Relies on `String::push`: it appends the given character.
#[verifier::external_body]
pub(crate) fn push_char(s: &mut String, c: char)
    ensures
        final(s)@ == old(s)@ + seq![c],
{
    s.push(c);
}

/// Uppercase hexadecimal digit character for a value below 16.
fn hex_digit_char(v: u8) -> (c: char)
    requires
        v < 16,
    ensures
        c == hex_digit(v),
{
    let b: u8 = if v < 10 {
        v + 0x30
    } else {
        v - 10 + 0x41
    };
    b as char
}

/// Appends `[1F, 20, FF]` for the given bytes, matching `hex_byte_list`.
fn append_hex_byte_list(s: &mut String, bytes: &[u8])
    ensures
        final(s)@ == old(s)@ + hex_byte_list(bytes@),
{
    push_char(s, '[');
    let n: usize = bytes.len();
    let mut i: usize = 0;
    while i < n
        invariant
            n == bytes@.len(),
            i <= n,
            s@ == old(s)@ + hex_list_prefix(bytes@, i as int),
        decreases n - i,
    {
        if i > 0 {
            push_char(s, ',');
            push_char(s, ' ');
        }
        let b = bytes[i];
        push_char(s, hex_digit_char(b / 16));
        push_char(s, hex_digit_char(b % 16));
        i = i + 1;
    }
    push_char(s, ']');
}

/// Renders any byte sequence as readable text: the UTF-8 decoding when the
/// bytes are valid UTF-8, else `INVALID UTF-8: ` followed by the uppercase
/// two-digit hex list of every byte. Never fails.
pub fn safe_format_bytes(bytestring: &[u8]) -> (r: String)
    ensures
        r@ == safe_format_bytes_spec(bytestring@),
{
    match utf8_decode(bytestring) {
        Some(text) => {
            proof {
                encode_utf8_decode_utf8(text@);
            }
            text.to_owned()
        },
        None => {
            let mut s = String::new();
            s.append("INVALID UTF-8: ");
            append_hex_byte_list(&mut s, bytestring);
            s
        },
    }
}

} // verus!
