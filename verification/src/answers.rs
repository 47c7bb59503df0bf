//! The beacon's answer payload and its defensive rendering, and the
//! inventory map that an answer is built from.
//!
//! An [`Answer`] is an opaque byte payload, conventionally UTF-8 JSON.
//! Rendering never fails: a payload that parses as JSON is re-serialized
//! canonically, anything else is wrapped as `{"info": <fallback>}` with the
//! fallback of [`safe_format_bytes`](crate::bytes::safe_format_bytes).

use crate::bytes::{append_escaped_chars, bytes_eq, bytes_lt, bytes_lt_exec, escape_chars};
use crate::bytes::{find_byte, lemma_bytes_lt_transitive, lemma_bytes_lt_trichotomy};
use crate::bytes::{hex_byte_list, hex_digit, hex_list_prefix, invalid_utf8_chars};
use crate::bytes::{lemma_escape_plain_chars, lemma_find_byte, plain_char};
use crate::bytes::{safe_format_bytes, safe_format_bytes_spec, split_lines, split_lines_vec};
use crate::inventory::{HostnameSource, InternalInventory};
use crate::json::{encode_json_object, json_object_bytes, InfoEntry, InfoValue, InfoValueView};
use vstd::pervasive::VecAdditionalExecFns;
use vstd::prelude::*;
use vstd::slice::{slice_index_get, slice_subrange, slice_to_vec};
use vstd::string::{StrSliceExecFns, StringExecFns, StringSliceAdditionalSpecFns};
use vstd::utf8::{encode_utf8, valid_utf8};

verus! {

/// Whether standard JSON parsing accepts these bytes as a JSON document.
/// Names what `serde_json::from_slice::<Value>` decides; a function of the
/// bytes alone.
pub uninterp spec fn json_ok(bytes: Seq<u8>) -> bool;

/// The canonical compact re-serialization of a JSON document given as bytes.
/// Names what `serde_json`'s parse-then-serialize round trip produces; a
/// function of the bytes alone.
pub uninterp spec fn json_canonical(bytes: Seq<u8>) -> Seq<char>;

/// Relies on `serde_json::from_slice::<Value>` and `Value`'s `to_string`:
/// parsing succeeds for exactly the byte sequences that are a JSON document,
/// and re-serializing the parsed value is a deterministic function of the
/// input bytes (maps are held sorted by key and printed compactly).
#[verifier::external_body]
fn json_reformat(bytes: &[u8]) -> (r: Option<String>)
    ensures
        r is Some <==> json_ok(bytes@),
        r is Some ==> r->0@ == json_canonical(bytes@),
{
    match serde_json::from_slice::<serde_json::Value>(bytes) {
        Ok(value) => Some(value.to_string()),
        Err(_) => None,
    }
}

/// Message returned to the scanner (JSON formatted).
#[derive(Debug, Clone, PartialEq)]
pub struct Answer(pub Vec<u8>);

impl View for Answer {
    type V = Seq<u8>;

    open spec fn view(&self) -> Seq<u8> {
        self.0@
    }
}

impl Default for Answer {
    /// The default answer is empty bytes.
    fn default() -> (r: Self)
        ensures
            r@ == Seq::<u8>::empty(),
    {
        Answer(Vec::new())
    }
}

/// What `Answer::safe_format` returns for given payload bytes: the canonical
/// re-serialization when the payload is a JSON document, else the payload
/// wrapped as an `info` object, rendered defensively and escaped. Total and
/// deterministic for every byte sequence.
pub open spec fn safe_format_spec(bytes: Seq<u8>) -> Seq<char> {
    if json_ok(bytes) {
        json_canonical(bytes)
    } else {
        "{\"info\":\""@ + escape_chars(safe_format_bytes_spec(bytes)) + "\"}"@
    }
}

impl Answer {
    /// An answer holding the UTF-8 bytes of the given text.
    pub fn from(text: &str) -> (r: Self)
        ensures
            r@ == text.spec_bytes(),
    {
        Answer(text.as_bytes_vec())
    }

    /// An answer holding a copy of the given bytes.
    pub fn from_bytes(bytes: &[u8]) -> (r: Self)
        ensures
            r@ == bytes@,
    {
        Answer(slice_to_vec(bytes))
    }

    /// Renders the payload as readable text; never fails, whatever the bytes
    /// hold.
    pub fn safe_format(&self) -> (r: String)
        ensures
            r@ == safe_format_spec(self@),
    {
        match json_reformat(self.0.as_slice()) {
            Some(formatted) => formatted,
            None => {
                let mut out = String::new();
                out.append("{\"info\":\"");
                let fallback = safe_format_bytes(self.0.as_slice());
                append_escaped_chars(&mut out, fallback.as_str());
                out.append("\"}");
                out
            },
        }
    }
}

/// Every character of the hex-list fallback is left unchanged by the JSON
/// string escaping: hex digits, brackets, commas and spaces need no escape.
proof fn lemma_invalid_utf8_chars_plain(bytes: Seq<u8>)
    ensures
        forall|i: int|
            0 <= i < invalid_utf8_chars(bytes).len() ==> plain_char(
                #[trigger] invalid_utf8_chars(bytes)[i],
            ),
{
    reveal_strlit("INVALID UTF-8: ");
    let prefix = "INVALID UTF-8: "@;
    let opening = hex_list_prefix(bytes, bytes.len() as int);
    lemma_hex_list_prefix_plain(bytes, bytes.len() as int);
    assert forall|i: int| 0 <= i < invalid_utf8_chars(bytes).len() implies plain_char(
        #[trigger] invalid_utf8_chars(bytes)[i],
    ) by {
        if i < prefix.len() {
            assert(invalid_utf8_chars(bytes)[i] == prefix[i]);
        } else if i - prefix.len() < opening.len() {
            assert(invalid_utf8_chars(bytes)[i] == opening[i - prefix.len()]);
        } else {
            assert(invalid_utf8_chars(bytes)[i] == ']');
        }
    }
}

/// Hexadecimal digits are plain characters.
proof fn lemma_hex_digit_plain(v: u8)
    requires
        v < 16,
    ensures
        plain_char(hex_digit(v)),
{
}

/// Every character of a hex list opening is plain.
proof fn lemma_hex_list_prefix_plain(bytes: Seq<u8>, n: int)
    ensures
        forall|i: int|
            0 <= i < hex_list_prefix(bytes, n).len() ==> plain_char(
                #[trigger] hex_list_prefix(bytes, n)[i],
            ),
    decreases n,
{
    let s = hex_list_prefix(bytes, n);
    if n <= 0 {
        assert forall|i: int| 0 <= i < s.len() implies plain_char(#[trigger] s[i]) by {
            assert(s[i] == '[');
        }
    } else if n == 1 {
        lemma_hex_digit_plain(bytes[0] / 16);
        lemma_hex_digit_plain(bytes[0] % 16);
        assert forall|i: int| 0 <= i < s.len() implies plain_char(#[trigger] s[i]) by {
            if i == 0 {
                assert(s[i] == '[');
            } else if i == 1 {
                assert(s[i] == hex_digit(bytes[0] / 16));
            } else {
                assert(s[i] == hex_digit(bytes[0] % 16));
            }
        }
    } else {
        lemma_hex_list_prefix_plain(bytes, n - 1);
        lemma_hex_digit_plain(bytes[n - 1] / 16);
        lemma_hex_digit_plain(bytes[n - 1] % 16);
        let prev = hex_list_prefix(bytes, n - 1);
        assert forall|i: int| 0 <= i < s.len() implies plain_char(#[trigger] s[i]) by {
            if i < prev.len() {
                assert(s[i] == prev[i]);
            } else if i == prev.len() {
                assert(s[i] == ',');
            } else if i == prev.len() + 1 {
                assert(s[i] == ' ');
            } else if i == prev.len() + 2 {
                assert(s[i] == hex_digit(bytes[n - 1] / 16));
            } else {
                assert(s[i] == hex_digit(bytes[n - 1] % 16));
            }
        }
    }
}

/// Rendering a payload that is neither a JSON document nor valid UTF-8 yields
/// exactly the fallback object: the literal `INVALID UTF-8: ` marker followed
/// by the uppercase two-digit hex list of every payload byte, wrapped as the
/// `info` member of a JSON object, with nothing escaped.
pub proof fn lemma_render_invalid_utf8(bytes: Seq<u8>)
    requires
        !valid_utf8(bytes),
        !json_ok(bytes),
    ensures
        safe_format_spec(bytes) == "{\"info\":\""@ + "INVALID UTF-8: "@ + hex_byte_list(bytes)
            + "\"}"@,
{
    lemma_invalid_utf8_chars_plain(bytes);
    lemma_escape_plain_chars(invalid_utf8_chars(bytes));
}

/// A member list of an answer object, as a ghost value.
pub type InfoEntries = Seq<(Seq<u8>, InfoValueView)>;

/// A member list in strictly ascending key order.
pub open spec fn entries_sorted(es: InfoEntries) -> bool {
    forall|i: int, j: int| 0 <= i < j < es.len() ==> bytes_lt(es[i].0, es[j].0)
}

/// A member list without repeated keys.
pub open spec fn keys_unique(es: InfoEntries) -> bool {
    forall|i: int, j: int| 0 <= i < j < es.len() ==> es[i].0 != es[j].0
}

/// Sorted members have pairwise distinct keys.
pub proof fn lemma_sorted_keys_unique(es: InfoEntries)
    requires
        entries_sorted(es),
    ensures
        keys_unique(es),
{
    assert forall|i: int, j: int| 0 <= i < j < es.len() implies es[i].0 != es[j].0 by {
        lemma_bytes_lt_trichotomy(es[i].0, es[j].0);
    }
}

/// Whether some member holds this key.
pub open spec fn has_key(es: InfoEntries, k: Seq<u8>) -> bool {
    exists|i: int| 0 <= i < es.len() && es[i].0 == k
}

/// The value held at a key (meaningful when keys are unique).
pub open spec fn value_of(es: InfoEntries, k: Seq<u8>) -> InfoValueView
    recommends
        has_key(es, k),
{
    es[choose|i: int| 0 <= i < es.len() && es[i].0 == k].1
}

/// The map a member list with unique keys denotes.
pub open spec fn entry_map(es: InfoEntries) -> Map<Seq<u8>, InfoValueView> {
    Map::new(|k: Seq<u8>| has_key(es, k), |k: Seq<u8>| value_of(es, k))
}

/// With unique keys, the value at a key is the value of whichever member
/// holds it.
proof fn lemma_value_of_unique(es: InfoEntries, k: Seq<u8>, i: int)
    requires
        keys_unique(es),
        0 <= i < es.len(),
        es[i].0 == k,
    ensures
        value_of(es, k) == es[i].1,
{
    let j = choose|j: int| 0 <= j < es.len() && es[j].0 == k;
    if j != i {
        if j < i {
            assert(es[j].0 != es[i].0);
        } else {
            assert(es[i].0 != es[j].0);
        }
    }
}

/// Replacing the member that holds a key writes that key in the map.
proof fn lemma_entry_map_update(es: InfoEntries, p: int, k: Seq<u8>, v: InfoValueView)
    requires
        keys_unique(es),
        0 <= p < es.len(),
        es[p].0 == k,
    ensures
        entry_map(es.update(p, (k, v))) == entry_map(es).insert(k, v),
{
    let es2 = es.update(p, (k, v));
    assert forall|i: int, j: int| 0 <= i < j < es2.len() implies es2[i].0 != es2[j].0 by {
        assert(es2[i].0 == es[i].0 && es2[j].0 == es[j].0);
    }
    assert forall|k2: Seq<u8>| true implies #[trigger] has_key(es2, k2) == (has_key(es, k2) || k2
        == k) by {
        if has_key(es2, k2) {
            let i = choose|i: int| 0 <= i < es2.len() && es2[i].0 == k2;
            if i != p {
                assert(es[i].0 == k2);
            }
        }
        if has_key(es, k2) {
            let i = choose|i: int| 0 <= i < es.len() && es[i].0 == k2;
            if i != p {
                assert(es2[i].0 == k2);
            } else {
                assert(es2[p].0 == k);
            }
        }
        if k2 == k {
            assert(es2[p].0 == k2);
        }
    }
    assert forall|k2: Seq<u8>| has_key(es2, k2) implies value_of(es2, k2) == entry_map(
        es,
    ).insert(k, v)[k2] by {
        if k2 == k {
            lemma_value_of_unique(es2, k2, p);
        } else {
            let i = choose|i: int| 0 <= i < es2.len() && es2[i].0 == k2;
            assert(i != p);
            lemma_value_of_unique(es2, k2, i);
            lemma_value_of_unique(es, k2, i);
        }
    }
    assert(entry_map(es2) =~= entry_map(es).insert(k, v));
}

/// Adding a member with a fresh key anywhere in the list writes that key in
/// the map.
proof fn lemma_entry_map_insert(es: InfoEntries, p: int, k: Seq<u8>, v: InfoValueView)
    requires
        keys_unique(es),
        !has_key(es, k),
        0 <= p <= es.len(),
    ensures
        entry_map(es.insert(p, (k, v))) == entry_map(es).insert(k, v),
        keys_unique(es.insert(p, (k, v))),
{
    let es2 = es.insert(p, (k, v));
    assert forall|i: int, j: int| 0 <= i < j < es2.len() implies es2[i].0 != es2[j].0 by {
        if i == p {
            assert(es2[j].0 == es[j - 1].0);
            assert(!(0 <= j - 1 < es.len() && es[j - 1].0 == k));
        } else if j == p {
            assert(es2[i].0 == es[i].0);
            assert(!(0 <= i < es.len() && es[i].0 == k));
        } else {
            let i0 = if i < p { i } else { i - 1 };
            let j0 = if j < p { j } else { j - 1 };
            assert(es2[i].0 == es[i0].0 && es2[j].0 == es[j0].0);
        }
    }
    assert forall|k2: Seq<u8>| true implies #[trigger] has_key(es2, k2) == (has_key(es, k2) || k2
        == k) by {
        if has_key(es2, k2) {
            let i = choose|i: int| 0 <= i < es2.len() && es2[i].0 == k2;
            if i < p {
                assert(es[i].0 == k2);
            } else if i > p {
                assert(es[i - 1].0 == k2);
            }
        }
        if has_key(es, k2) {
            let i = choose|i: int| 0 <= i < es.len() && es[i].0 == k2;
            if i < p {
                assert(es2[i].0 == k2);
            } else {
                assert(es2[i + 1].0 == k2);
            }
        }
        if k2 == k {
            assert(es2[p].0 == k2);
        }
    }
    assert forall|k2: Seq<u8>| has_key(es2, k2) implies value_of(es2, k2) == entry_map(
        es,
    ).insert(k, v)[k2] by {
        if k2 == k {
            lemma_value_of_unique(es2, k2, p);
        } else {
            let i = choose|i: int| 0 <= i < es.len() && es[i].0 == k2;
            if i < p {
                lemma_value_of_unique(es2, k2, i);
            } else {
                assert(es2[i + 1].0 == k2 && es2[i + 1].1 == es[i].1);
                lemma_value_of_unique(es2, k2, i + 1);
            }
            lemma_value_of_unique(es, k2, i);
        }
    }
    assert(entry_map(es2) =~= entry_map(es).insert(k, v));
}

/// Dropping the last member removes its key from the map.
proof fn lemma_entry_map_drop_last(es: InfoEntries)
    requires
        keys_unique(es),
        es.len() > 0,
    ensures
        entry_map(es.drop_last()) == entry_map(es).remove(es.last().0),
{
    let es2 = es.drop_last();
    let k = es.last().0;
    assert forall|k2: Seq<u8>| true implies #[trigger] has_key(es2, k2) == (has_key(es, k2) && k2
        != k) by {
        if has_key(es2, k2) {
            let i = choose|i: int| 0 <= i < es2.len() && es2[i].0 == k2;
            assert(es[i].0 == k2);
            assert(es[i].0 != es[es.len() - 1].0);
        }
        if has_key(es, k2) && k2 != k {
            let i = choose|i: int| 0 <= i < es.len() && es[i].0 == k2;
            assert(i < es.len() - 1);
            assert(es2[i].0 == k2);
        }
    }
    assert forall|k2: Seq<u8>| has_key(es2, k2) implies value_of(es2, k2) == value_of(es, k2) by {
        let i = choose|i: int| 0 <= i < es2.len() && es2[i].0 == k2;
        assert forall|a: int, b: int| 0 <= a < b < es2.len() implies es2[a].0 != es2[b].0 by {
            assert(es[a].0 != es[b].0);
        }
        lemma_value_of_unique(es2, k2, i);
        lemma_value_of_unique(es, k2, i);
    }
    assert(entry_map(es2) =~= entry_map(es).remove(k));
}

/// Two sorted member lists that denote the same map are the same list: the
/// sorted encoding order is a function of the map alone.
pub proof fn lemma_sorted_entries_unique(es1: InfoEntries, es2: InfoEntries)
    requires
        entries_sorted(es1),
        entries_sorted(es2),
        entry_map(es1) == entry_map(es2),
    ensures
        es1 == es2,
    decreases es1.len(),
{
    lemma_sorted_keys_unique(es1);
    lemma_sorted_keys_unique(es2);
    if es1.len() == 0 {
        if es2.len() > 0 {
            let k = es2.last().0;
            assert(es2[es2.len() - 1].0 == k);
            assert(entry_map(es2).contains_key(k));
            assert(entry_map(es1).contains_key(k));
            assert(false);
        }
        assert(es1 =~= es2);
    } else if es2.len() == 0 {
        let k = es1.last().0;
        assert(es1[es1.len() - 1].0 == k);
        assert(entry_map(es1).contains_key(k));
        assert(entry_map(es2).contains_key(k));
        assert(false);
    } else {
        let k1 = es1.last().0;
        let k2 = es2.last().0;
        assert(es1[es1.len() - 1].0 == k1);
        assert(es2[es2.len() - 1].0 == k2);
        if k1 != k2 {
            assert(entry_map(es1).contains_key(k1));
            assert(has_key(es2, k1));
            let i = choose|i: int| 0 <= i < es2.len() && es2[i].0 == k1;
            assert(i < es2.len() - 1);
            assert(bytes_lt(k1, k2));
            assert(entry_map(es2).contains_key(k2));
            assert(has_key(es1, k2));
            let j = choose|j: int| 0 <= j < es1.len() && es1[j].0 == k2;
            assert(j < es1.len() - 1);
            assert(bytes_lt(k2, k1));
            lemma_bytes_lt_trichotomy(k1, k2);
            lemma_bytes_lt_transitive(k1, k2, k1);
            assert(false);
        }
        lemma_value_of_unique(es1, k1, es1.len() - 1);
        lemma_value_of_unique(es2, k1, es2.len() - 1);
        assert(entry_map(es1).contains_key(k1));
        assert(entry_map(es2).contains_key(k1));
        assert(es1.last().1 == value_of(es1, k1) && value_of(es1, k1) == entry_map(es1)[k1]);
        assert(es2.last().1 == value_of(es2, k1) && value_of(es2, k1) == entry_map(es2)[k1]);
        assert(es1.last().0 == es2.last().0 && es1.last().1 == es2.last().1);
        lemma_entry_map_drop_last(es1);
        lemma_entry_map_drop_last(es2);
        assert(entries_sorted(es1.drop_last()));
        assert(entries_sorted(es2.drop_last()));
        lemma_sorted_entries_unique(es1.drop_last(), es2.drop_last());
        assert(es1.len() == es2.len());
        assert forall|i: int| 0 <= i < es1.len() implies es1[i] == es2[i] by {
            if i < es1.len() - 1 {
                assert(es1.drop_last()[i] == es2.drop_last()[i]);
            } else {
                assert(es1[i] == es1.last() && es2[i] == es2.last());
            }
        }
        assert(es1 =~= es2);
    }
}

/// The single sorted member list that denotes a map.
pub open spec fn canonical_entries(m: Map<Seq<u8>, InfoValueView>) -> InfoEntries {
    choose|es: InfoEntries| entries_sorted(es) && entry_map(es) == m
}

/// The canonical JSON encoding of an answer map: its members in ascending
/// key order, printed compactly.
pub open spec fn json_of_map(m: Map<Seq<u8>, InfoValueView>) -> Seq<u8> {
    json_object_bytes(canonical_entries(m))
}

/// Any sorted member list is the canonical one for the map it denotes.
pub proof fn lemma_canonical_entries(es: InfoEntries)
    requires
        entries_sorted(es),
    ensures
        canonical_entries(entry_map(es)) == es,
        json_of_map(entry_map(es)) == json_object_bytes(es),
{
    let m = entry_map(es);
    assert(entries_sorted(es) && entry_map(es) == m);
    let es2 = choose|es2: InfoEntries| entries_sorted(es2) && entry_map(es2) == m;
    lemma_sorted_entries_unique(es2, es);
}

/// Extensible key/value host data: what a beacon's answer is built from.
/// Holds at most one value per key; members stay sorted by key, the order
/// in which the answer is encoded.
#[derive(Debug, Clone, PartialEq)]
pub struct BeaconInfos {
    entries: Vec<InfoEntry>,
}

impl View for BeaconInfos {
    type V = Map<Seq<u8>, InfoValueView>;

    closed spec fn view(&self) -> Map<Seq<u8>, InfoValueView> {
        entry_map(self.entries.deep_view())
    }
}

impl BeaconInfos {
    /// The member list in encoding order.
    pub closed spec fn entry_seq(&self) -> InfoEntries {
        self.entries.deep_view()
    }

    /// Well-formed: members strictly sorted by key. The map held is then
    /// `entry_map` of the member list.
    pub open spec fn wf(&self) -> bool {
        entries_sorted(self.entry_seq())
    }

    /// An empty answer map.
    pub fn new() -> (r: Self)
        ensures
            r.wf(),
            r@ == Map::<Seq<u8>, InfoValueView>::empty(),
    {
        let r = BeaconInfos { entries: Vec::new() };
        proof {
            assert(r.entry_seq() =~= Seq::<(Seq<u8>, InfoValueView)>::empty());
            assert(r@ =~= Map::<Seq<u8>, InfoValueView>::empty());
        }
        r
    }

    /// First position whose key is not below `key`.
    fn lower_bound(&self, key: &[u8]) -> (p: usize)
        requires
            self.wf(),
        ensures
            p <= self.entry_seq().len(),
            forall|i: int| 0 <= i < p ==> bytes_lt(#[trigger] self.entry_seq()[i].0, key@),
            p < self.entry_seq().len() ==> !bytes_lt(self.entry_seq()[p as int].0, key@),
    {
        let n: usize = self.entries.len();
        let mut p: usize = 0;
        loop
            invariant
                p <= n,
                n == self.entry_seq().len(),
                self.wf(),
                forall|i: int| 0 <= i < p ==> bytes_lt(#[trigger] self.entry_seq()[i].0, key@),
            ensures
                p <= n,
                forall|i: int| 0 <= i < p ==> bytes_lt(#[trigger] self.entry_seq()[i].0, key@),
                p < n ==> !bytes_lt(self.entry_seq()[p as int].0, key@),
            decreases n - p,
        {
            if p == n {
                break;
            }
            let e = &self.entries[p];
            proof {
                assert(self.entry_seq()[p as int] == self.entries@[p as int]@);
            }
            if !bytes_lt_exec(e.key.as_slice(), key) {
                break;
            }
            p = p + 1;
        }
        p
    }

    /// Inserts or replaces: afterwards the map holds `value` at `key`.
    pub fn set(&mut self, key: Vec<u8>, value: InfoValue)
        requires
            old(self).wf(),
        ensures
            final(self).wf(),
            final(self)@ == old(self)@.insert(key@, value@),
    {
        let ghost es0 = self.entry_seq();
        let ghost k = key@;
        let ghost v = value@;
        proof {
            lemma_sorted_keys_unique(es0);
        }
        let p = self.lower_bound(key.as_slice());
        let n = self.entries.len();
        let mut is_match = false;
        if p < n {
            let e = &self.entries[p];
            proof {
                assert(self.entry_seq()[p as int] == self.entries@[p as int]@);
            }
            is_match = bytes_eq(e.key.as_slice(), key.as_slice());
        }
        let e = InfoEntry { key, value };
        proof {
            assert(e@ == (k, v));
        }
        if is_match {
            self.entries.set(p, e);
            proof {
                assert(self.entry_seq() =~= es0.update(p as int, (k, v)));
                assert forall|i: int, j: int|
                    0 <= i < j < self.entry_seq().len() implies bytes_lt(
                    self.entry_seq()[i].0,
                    self.entry_seq()[j].0,
                ) by {
                    assert(self.entry_seq()[i].0 == es0[i].0);
                    assert(self.entry_seq()[j].0 == es0[j].0);
                }
                lemma_entry_map_update(es0, p as int, k, v);
            }
        } else {
            proof {
                if p < es0.len() {
                    lemma_bytes_lt_trichotomy(es0[p as int].0, k);
                }
                assert(!has_key(es0, k)) by {
                    if has_key(es0, k) {
                        let i = choose|i: int| 0 <= i < es0.len() && es0[i].0 == k;
                        if i < p {
                            lemma_bytes_lt_trichotomy(es0[i].0, k);
                        } else if i > p {
                            assert(bytes_lt(es0[p as int].0, es0[i].0));
                            lemma_bytes_lt_trichotomy(es0[p as int].0, k);
                        }
                    }
                }
            }
            self.entries.insert(p, e);
            proof {
                assert(self.entry_seq() =~= es0.insert(p as int, (k, v)));
                let es2 = self.entry_seq();
                assert forall|i: int, j: int| 0 <= i < j < es2.len() implies bytes_lt(
                    es2[i].0,
                    es2[j].0,
                ) by {
                    let i0 = if i < p { i } else { i - 1 };
                    let j0 = if j < p { j } else { j - 1 };
                    if i == p {
                        assert(es2[j].0 == es0[j0].0);
                        if j0 > p {
                            assert(bytes_lt(es0[p as int].0, es0[j0].0));
                            lemma_bytes_lt_trichotomy(es0[p as int].0, k);
                            lemma_bytes_lt_transitive(k, es0[p as int].0, es0[j0].0);
                        } else {
                            lemma_bytes_lt_trichotomy(es0[p as int].0, k);
                        }
                    } else if j == p {
                        assert(es2[i].0 == es0[i0].0);
                    } else {
                        assert(es2[i].0 == es0[i0].0 && es2[j].0 == es0[j0].0);
                        if i0 == j0 {
                            assert(i < p && j > p);
                            assert(bytes_lt(es0[i0].0, k));
                        }
                    }
                }
                lemma_entry_map_insert(es0, p as int, k, v);
            }
        }
    }

    /// Records one `key=value` reading: a fresh key is stored as text, a
    /// repeated key collapses into the list of its values in order.
    fn add_cmd_value(&mut self, key: Vec<u8>, value: Vec<u8>)
        requires
            old(self).wf(),
        ensures
            final(self).wf(),
            final(self)@ == add_cmd_value_map(old(self)@, key@, value@),
    {
        let ghost es0 = self.entry_seq();
        let ghost k = key@;
        let ghost v = value@;
        proof {
            lemma_sorted_keys_unique(es0);
        }
        let p = self.lower_bound(key.as_slice());
        let n = self.entries.len();
        let mut is_match = false;
        if p < n {
            let e = &self.entries[p];
            proof {
                assert(self.entry_seq()[p as int] == self.entries@[p as int]@);
            }
            is_match = bytes_eq(e.key.as_slice(), key.as_slice());
        }
        if is_match {
            proof {
                lemma_value_of_unique(es0, k, p as int);
                assert(old(self)@.contains_key(k));
                assert(old(self)@[k] == es0[p as int].1);
            }
            let old_entry = self.entries.remove(p);
            proof {
                assert(old_entry@ == es0[p as int]);
            }
            let new_value = match old_entry.value {
                InfoValue::Text(prev) => {
                    let ghost prev_view = prev@;
                    let mut items: Vec<Vec<u8>> = Vec::new();
                    items.push(prev);
                    items.push(value);
                    proof {
                        assert(items.deep_view() =~~= seq![prev_view, v]);
                    }
                    InfoValue::List(items)
                },
                InfoValue::List(mut items) => {
                    let ghost items_view = items.deep_view();
                    items.push(value);
                    proof {
                        assert(items.deep_view() =~~= items_view.push(v));
                    }
                    InfoValue::List(items)
                },
            };
            let ghost nv = new_value@;
            self.entries.insert(p, InfoEntry { key, value: new_value });
            proof {
                assert(self.entry_seq() =~= es0.update(p as int, (k, nv)));
                assert forall|i: int, j: int|
                    0 <= i < j < self.entry_seq().len() implies bytes_lt(
                    self.entry_seq()[i].0,
                    self.entry_seq()[j].0,
                ) by {
                    assert(self.entry_seq()[i].0 == es0[i].0);
                    assert(self.entry_seq()[j].0 == es0[j].0);
                }
                lemma_entry_map_update(es0, p as int, k, nv);
            }
        } else {
            proof {
                assert(!has_key(es0, k)) by {
                    if has_key(es0, k) {
                        let i = choose|i: int| 0 <= i < es0.len() && es0[i].0 == k;
                        if i < p {
                            lemma_bytes_lt_trichotomy(es0[i].0, k);
                        } else if i > p {
                            assert(bytes_lt(es0[p as int].0, es0[i].0));
                            lemma_bytes_lt_trichotomy(es0[p as int].0, k);
                        }
                    }
                }
                assert(!old(self)@.contains_key(k));
            }
            self.set(key, InfoValue::Text(value));
        }
    }

    /// A member-by-member copy.
    fn duplicate(&self) -> (r: Self)
        ensures
            r.entry_seq() == self.entry_seq(),
            r@ == self@,
    {
        let n = self.entries.len();
        let mut out: Vec<InfoEntry> = Vec::new();
        let mut i: usize = 0;
        while i < n
            invariant
                i <= n,
                n == self.entries@.len(),
                out.deep_view() == self.entry_seq().take(i as int),
            decreases n - i,
        {
            let ghost sofar = out.deep_view();
            let e = &self.entries[i];
            let key2 = e.key.clone();
            proof {
                assert(key2@ =~= e.key@);
            }
            let value2 = match &e.value {
                InfoValue::Text(s) => {
                    let s2 = s.clone();
                    proof {
                        assert(s2@ =~= s@);
                    }
                    InfoValue::Text(s2)
                },
                InfoValue::List(items) => {
                    let m = items.len();
                    let mut items2: Vec<Vec<u8>> = Vec::new();
                    let mut j: usize = 0;
                    while j < m
                        invariant
                            j <= m,
                            m == items@.len(),
                            items2.deep_view() == items.deep_view().take(j as int),
                        decreases m - j,
                    {
                        let ghost items_sofar = items2.deep_view();
                        let c = items[j].clone();
                        proof {
                            assert(c@ =~= items@[j as int]@);
                        }
                        items2.push(c);
                        proof {
                            assert(items2.deep_view() =~~= items_sofar.push(items@[j as int]@));
                            assert(items.deep_view().take(j + 1) =~= items.deep_view().take(
                                j as int,
                            ).push(items.deep_view()[j as int]));
                        }
                        j = j + 1;
                    }
                    proof {
                        assert(items.deep_view().take(m as int) =~= items.deep_view());
                    }
                    InfoValue::List(items2)
                },
            };
            proof {
                assert(value2@ == e.value@);
            }
            out.push(InfoEntry { key: key2, value: value2 });
            proof {
                assert(out.deep_view() =~~= sofar.push(self.entry_seq()[i as int]));
                assert(self.entry_seq().take(i + 1) =~= self.entry_seq().take(i as int).push(
                    self.entry_seq()[i as int],
                ));
            }
            i = i + 1;
        }
        proof {
            assert(self.entry_seq().take(n as int) =~= self.entry_seq());
        }
        BeaconInfos { entries: out }
    }

    /// Encodes the held map as its canonical JSON object bytes: members in
    /// ascending key order, printed compactly.
    pub fn encode(&self) -> (r: Vec<u8>)
        requires
            self.wf(),
        ensures
            r@ == json_of_map(self@),
    {
        let r = encode_json_object(&self.entries);
        proof {
            lemma_canonical_entries(self.entry_seq());
        }
        r
    }
}

/// One `key=value` reading folded into an answer map: a fresh key is stored
/// as text, a repeated key collapses into the list of its values in order.
pub open spec fn add_cmd_value_map(
    m: Map<Seq<u8>, InfoValueView>,
    k: Seq<u8>,
    v: Seq<u8>,
) -> Map<Seq<u8>, InfoValueView> {
    if !m.contains_key(k) {
        m.insert(k, InfoValueView::Text(v))
    } else {
        match m[k] {
            InfoValueView::Text(prev) => m.insert(k, InfoValueView::List(seq![prev, v])),
            InfoValueView::List(vs) => m.insert(k, InfoValueView::List(vs.push(v))),
        }
    }
}

/// One output line folded into an answer map: the part before the first `=`
/// is the key, the part after it the value; a line without `=` adds nothing.
pub open spec fn parse_kv_line(
    m: Map<Seq<u8>, InfoValueView>,
    line: Seq<u8>,
) -> Map<Seq<u8>, InfoValueView> {
    let j = find_byte(line, '=' as u8, 0);
    if 0 <= j < line.len() {
        add_cmd_value_map(m, line.take(j), line.skip(j + 1))
    } else {
        m
    }
}

/// A command output's lines folded into an answer map, in order.
pub open spec fn cmd_lines_map(
    m: Map<Seq<u8>, InfoValueView>,
    lines: Seq<Seq<u8>>,
) -> Map<Seq<u8>, InfoValueView>
    decreases lines.len(),
{
    if lines.len() == 0 {
        m
    } else {
        cmd_lines_map(parse_kv_line(m, lines[0]), lines.drop_first())
    }
}

/// The answer map read from one inventory command's whole output.
pub open spec fn cmd_output_map(bytes: Seq<u8>) -> Map<Seq<u8>, InfoValueView> {
    cmd_lines_map(Map::empty(), split_lines(bytes))
}

/// Reading key/value lines in the inventory output convention.
pub trait FromCmdOutput {
    /// Parses lines of `key=value` into an answer map. Never fails: lines
    /// without a `=` are passed over, and repeated keys collapse into a
    /// list of their values.
    fn from_cmd_output(lines: &str) -> (r: BeaconInfos)
        ensures
            r.wf(),
            r@ == cmd_output_map(lines.spec_bytes()),
    ;
}

impl FromCmdOutput for BeaconInfos {
    fn from_cmd_output(lines: &str) -> (r: BeaconInfos) {
        let bytes: &[u8] = lines.as_bytes();
        let rows = split_lines_vec(bytes);
        let ghost lv = rows.deep_view();
        let mut res = BeaconInfos::new();
        let n = rows.len();
        let mut i: usize = 0;
        proof {
            assert(lv.skip(0) =~= lv);
        }
        while i < n
            invariant
                i <= n,
                n == rows@.len(),
                res.wf(),
                lv == rows.deep_view(),
                cmd_lines_map(Map::empty(), lv) == cmd_lines_map(res@, lv.skip(i as int)),
            decreases n - i,
        {
            let ghost m0 = res@;
            let row: &Vec<u8> = &rows[i];
            proof {
                assert(row@ == lv[i as int]);
            }
            let mlen = row.len();
            let mut j: usize = 0;
            loop
                invariant
                    j <= mlen,
                    mlen == row@.len(),
                    forall|q: int| 0 <= q < j ==> row@[q] != 0x3d,
                ensures
                    j <= mlen,
                    forall|q: int| 0 <= q < j ==> row@[q] != 0x3d,
                    j < mlen ==> row@[j as int] == 0x3d,
                decreases mlen - j,
            {
                if j == mlen {
                    break;
                }
                if *slice_index_get(row.as_slice(), j) == 0x3d {
                    break;
                }
                j = j + 1;
            }
            proof {
                lemma_find_byte(row@, 0x3d, 0, j as int);
            }
            if j < mlen {
                let key = slice_to_vec(slice_subrange(row.as_slice(), 0, j));
                let value = slice_to_vec(slice_subrange(row.as_slice(), j + 1, mlen));
                proof {
                    assert(key@ =~= row@.take(j as int));
                    assert(value@ =~= row@.skip(j + 1));
                }
                res.add_cmd_value(key, value);
            }
            proof {
                assert(res@ == parse_kv_line(m0, lv[i as int]));
                assert(lv.skip(i as int).drop_first() =~= lv.skip(i + 1));
                assert(lv.skip(i as int)[0] == lv[i as int]);
                assert(cmd_lines_map(m0, lv.skip(i as int)) == cmd_lines_map(res@, lv.skip(i + 1)));
            }
            i = i + 1;
        }
        proof {
            assert(lv.skip(n as int) =~= Seq::<Seq<u8>>::empty());
        }
        res
    }
}

/// Merges the second answer map into the first (the second's members win on
/// a shared key), empties the second, and returns a copy of the merged map.
pub fn join_answers(first: &mut BeaconInfos, second: &mut BeaconInfos) -> (r: BeaconInfos)
    requires
        old(first).wf(),
        old(second).wf(),
    ensures
        r.wf(),
        r@ == old(first)@.union_prefer_right(old(second)@),
        final(first).wf(),
        final(first)@ == r@,
        final(second).wf(),
        final(second)@ == Map::<Seq<u8>, InfoValueView>::empty(),
{
    loop
        invariant
            first.wf(),
            entries_sorted(second.entry_seq()),
            first@.union_prefer_right(entry_map(second.entry_seq())) == old(
                first,
            )@.union_prefer_right(old(second)@),
        ensures
            first.wf(),
            second.entry_seq().len() == 0,
            entries_sorted(second.entry_seq()),
            first@.union_prefer_right(entry_map(second.entry_seq())) == old(
                first,
            )@.union_prefer_right(old(second)@),
        decreases second.entry_seq().len(),
    {
        let ghost ess = second.entry_seq();
        let ghost before = first@;
        let popped = second.entries.pop();
        match popped {
            None => {
                proof {
                    assert(second.entry_seq() =~= ess);
                }
                break;
            },
            Some(e) => {
                proof {
                    assert(e@ == ess.last());
                    assert(second.entry_seq() =~= ess.drop_last());
                    assert forall|a: int, b: int|
                        0 <= a < b < second.entry_seq().len() implies bytes_lt(
                        second.entry_seq()[a].0,
                        second.entry_seq()[b].0,
                    ) by {
                        assert(second.entry_seq()[a] == ess[a]);
                        assert(second.entry_seq()[b] == ess[b]);
                    }
                    lemma_sorted_keys_unique(ess);
                    lemma_entry_map_drop_last(ess);
                    lemma_value_of_unique(ess, ess.last().0, ess.len() - 1);
                    assert(entry_map(ess).contains_key(ess.last().0));
                }
                let ghost k = ess.last().0;
                let ghost v = ess.last().1;
                first.set(e.key, e.value);
                proof {
                    assert(first@ == before.insert(k, v));
                    assert(before.insert(k, v).union_prefer_right(entry_map(ess).remove(k))
                        =~= before.union_prefer_right(entry_map(ess)));
                }
            },
        }
    }
    proof {
        assert(entry_map(second.entry_seq()) =~= Map::<Seq<u8>, InfoValueView>::empty());
        assert(first@.union_prefer_right(Map::<Seq<u8>, InfoValueView>::empty()) =~= first@);
    }
    first.duplicate()
}

/// The maps of several command outputs merged in order: a later output wins
/// on a shared key.
pub open spec fn merged_outputs_map(outs: Seq<Seq<u8>>) -> Map<Seq<u8>, InfoValueView>
    decreases outs.len(),
{
    if outs.len() == 0 {
        Map::empty()
    } else {
        merged_outputs_map(outs.drop_last()).union_prefer_right(cmd_output_map(outs.last()))
    }
}

/// The UTF-8 bytes of each text in a list.
pub open spec fn strings_bytes(ss: Seq<Seq<char>>) -> Seq<Seq<u8>> {
    ss.map_values(|s: Seq<char>| encode_utf8(s))
}

/// Runs every inventory file's captured output through the `key=value`
/// reader and merges the maps, later files winning on a shared key.
pub fn get_inventory_files_answer(file_outputs: &Vec<String>) -> (r: BeaconInfos)
    ensures
        r.wf(),
        r@ == merged_outputs_map(strings_bytes(file_outputs.deep_view())),
{
    let ghost outs = strings_bytes(file_outputs.deep_view());
    let mut res = BeaconInfos::new();
    let n = file_outputs.len();
    let mut i: usize = 0;
    proof {
        assert(outs.take(0) =~= Seq::<Seq<u8>>::empty());
    }
    while i < n
        invariant
            i <= n,
            n == file_outputs@.len(),
            res.wf(),
            outs == strings_bytes(file_outputs.deep_view()),
            res@ == merged_outputs_map(outs.take(i as int)),
        decreases n - i,
    {
        let ghost before = res@;
        let s = &file_outputs[i];
        let mut parsed = BeaconInfos::from_cmd_output(s.as_str());
        res = join_answers(&mut res, &mut parsed);
        proof {
            assert(s@ == file_outputs.deep_view()[i as int]);
            assert(outs[i as int] == encode_utf8(s@));
            assert(outs.take(i + 1).drop_last() =~= outs.take(i as int));
            assert(outs.take(i + 1).last() == outs[i as int]);
            assert(res@ == merged_outputs_map(outs.take(i + 1)));
        }
        i = i + 1;
    }
    proof {
        assert(outs.take(n as int) =~= outs);
    }
    res
}

/// The bytes of a beacon's answer: the internal inventory's key and supplied
/// value, joined with every inventory file's readings (files win on a shared
/// key), encoded as the canonical JSON object.
pub open spec fn answer_bytes(key: Seq<char>, supplied: Seq<char>, outs: Seq<Seq<char>>) -> Seq<
    u8,
> {
    json_of_map(
        Map::<Seq<u8>, InfoValueView>::empty().insert(
            encode_utf8(key),
            InfoValueView::Text(encode_utf8(supplied)),
        ).union_prefer_right(merged_outputs_map(strings_bytes(outs))),
    )
}

/// Builds an answer from the given internal inventory and the captured
/// outputs of the inventory files. Never fails: every outcome of the
/// internal source yields a well-formed JSON answer, and with a fixed
/// source the bytes are pinned exactly.
pub fn get_answer_hostname_and_files(
    hostname_inventory: InternalInventory,
    file_outputs: &Vec<String>,
) -> (r: Answer)
    ensures
        exists|h: Seq<char>|
            r@ == #[trigger] answer_bytes(hostname_inventory.key@, h, file_outputs.deep_view()),
        hostname_inventory.source matches HostnameSource::Fixed(s) ==> r@ == answer_bytes(
            hostname_inventory.key@,
            s@,
            file_outputs.deep_view(),
        ),
{
    let internal = hostname_inventory.execute();
    let mut first = internal.output;
    let mut second = get_inventory_files_answer(file_outputs);
    let joined = join_answers(&mut first, &mut second);
    let r = Answer(joined.encode());
    proof {
        let h = internal.raw_output@;
        assert(r@ == answer_bytes(hostname_inventory.key@, h, file_outputs.deep_view()));
    }
    r
}

/// The beacon's standard answer: the machine's hostname under the key
/// `hostname`, joined with the inventory files' readings.
pub fn get_answer(file_outputs: &Vec<String>) -> (r: Answer)
    ensures
        exists|h: Seq<char>| r@ == #[trigger] answer_bytes("hostname"@, h, file_outputs.deep_view()),
{
    get_answer_hostname_and_files(InternalInventory::default(), file_outputs)
}

} // verus!
