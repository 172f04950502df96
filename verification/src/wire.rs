//! The wire format, stated on byte sequences: what a value is written as, and what
//! a byte sequence is read as.

use vstd::prelude::*;
use crate::elem::{Elem, encode_elems, parse_elem, parse_elems, lemma_parse_elems_rest};
use crate::error::ErrorKind;
use crate::le::{le_bytes, le_nat};
use crate::strvec::{parse_packed, lemma_parse_packed_len};
use crate::tags::{BOOL_TYPE, DOUBLE_TYPE, INTEGER_TYPE, LIST_STRING_TYPE, LIST_TYPE, MAP_TYPE,
    NULL_TYPE, STRING_TYPE, VERSION};
use crate::text::{cstring, parse_text};
use crate::value::Tson;

verus! {

/// The four bytes of a length field.
pub open spec fn len_field(len: nat) -> Seq<u8> {
    le_bytes(len, 4)
}

/// The bytes of a text with its tag: a string value, or the key of a map entry.
pub open spec fn encode_string(text: Seq<char>) -> Seq<u8> {
    seq![STRING_TYPE] + cstring(text)
}

/// The bytes that open every stream: the version token as a string.
pub open spec fn header() -> Seq<u8> {
    encode_string(VERSION@)
}

/// The payload of a value: what follows its tag and, where it has one, its
/// length field.
pub open spec fn encode_payload(value: Tson) -> Seq<u8>
    decreases value, 0nat,
{
    match value {
        Tson::NULL => Seq::empty(),
        Tson::STR(text) => cstring(text),
        Tson::I32(x) => Elem::I32.bytes(x as int),
        Tson::F64(bits) => Elem::F64.bytes(bits as int),
        Tson::BOOL(b) => seq![if b { 1u8 } else { 0u8 }],
        Tson::LST(items) => encode_items(items),
        Tson::MAP(entries) => encode_entries(entries),
        Tson::NUM(kind, xs) => encode_elems(kind, xs),
        Tson::LSTSTR(bytes) => bytes,
    }
}

/// The tag of a value.
pub open spec fn tag_of(value: Tson) -> u8 {
    match value {
        Tson::NULL => NULL_TYPE,
        Tson::STR(_) => STRING_TYPE,
        Tson::I32(_) => INTEGER_TYPE,
        Tson::F64(_) => DOUBLE_TYPE,
        Tson::BOOL(_) => BOOL_TYPE,
        Tson::LST(_) => LIST_TYPE,
        Tson::MAP(_) => MAP_TYPE,
        Tson::NUM(kind, _) => kind.tag(),
        Tson::LSTSTR(_) => LIST_STRING_TYPE,
    }
}

/// The tag of a value and, where it declares a length, its length field.
pub open spec fn encode_head(value: Tson) -> Seq<u8> {
    match value.declared_len() {
        Some(len) => seq![tag_of(value)] + len_field(len),
        None => seq![tag_of(value)],
    }
}

/// The bytes of one value: tag, length field where there is one, payload.
pub open spec fn encode_object(value: Tson) -> Seq<u8>
    decreases value, 1nat,
{
    encode_head(value) + encode_payload(value)
}

/// The bytes of the items of a list, one after the other.
pub open spec fn encode_items(items: Seq<Tson>) -> Seq<u8>
    decreases items, 2nat,
{
    if items.len() == 0 {
        Seq::empty()
    } else {
        encode_object(items[0]) + encode_items(items.drop_first())
    }
}

/// The bytes of one map entry: the key as a string, then the value.
pub open spec fn encode_entry(entry: (Seq<char>, Tson)) -> Seq<u8>
    decreases entry, 2nat,
{
    encode_string(entry.0) + encode_object(entry.1)
}

/// The bytes of the entries of a map, one after the other.
pub open spec fn encode_entries(entries: Seq<(Seq<char>, Tson)>) -> Seq<u8>
    decreases entries, 2nat,
{
    if entries.len() == 0 {
        Seq::empty()
    } else {
        encode_entry(entries[0]) + encode_entries(entries.drop_first())
    }
}

/// The bytes of a whole stream: the header and one value.
pub open spec fn encode(value: Tson) -> Seq<u8> {
    header() + encode_object(value)
}

/// The bytes of a value begin with its head, which begins with its tag.
pub proof fn lemma_encode_object_len(value: Tson)
    ensures
        encode_head(value).len() == (if value.declared_len() is Some { 5nat } else { 1nat }),
        encode_object(value).len() == encode_head(value).len() + encode_payload(value).len(),
        encode_head(value)[0] == tag_of(value),
{
    match value.declared_len() {
        Some(len) => {
            crate::le::lemma_le_bytes_len(len, 4);
        },
        None => {},
    }
}

pub proof fn lemma_encode_items_concat(a: Seq<Tson>, b: Seq<Tson>)
    ensures
        encode_items(a + b) == encode_items(a) + encode_items(b),
    decreases a.len(),
{
    if a.len() == 0 {
        assert(a + b =~= b);
        assert(encode_items(a) + encode_items(b) =~= encode_items(b));
    } else {
        assert((a + b).drop_first() =~= a.drop_first() + b);
        lemma_encode_items_concat(a.drop_first(), b);
        assert(encode_items(a + b) =~= encode_items(a) + encode_items(b));
    }
}

pub proof fn lemma_encode_items_push(items: Seq<Tson>, item: Tson)
    ensures
        encode_items(items.push(item)) == encode_items(items) + encode_object(item),
{
    lemma_encode_items_concat(items, seq![item]);
    assert(items.push(item) =~= items + seq![item]);
    assert(seq![item].drop_first() =~= Seq::<Tson>::empty());
    assert(encode_items(seq![item]) =~= encode_object(item)) by {
        reveal_with_fuel(encode_items, 2);
    }
}

/// The bytes of a list's items are those of the items before the one at `at`,
/// its own, and those of the items after it.
pub proof fn lemma_encode_items_split(items: Seq<Tson>, at: int)
    requires
        0 <= at < items.len(),
    ensures
        encode_items(items) == encode_items(items.take(at)) + encode_object(items[at])
            + encode_items(items.skip(at + 1)),
        encode_items(items.take(at + 1)) == encode_items(items.take(at)) + encode_object(
            items[at],
        ),
        encode_items(items.skip(at)) == encode_object(items[at]) + encode_items(
            items.skip(at + 1),
        ),
{
    lemma_encode_items_push(items.take(at), items[at]);
    assert(items.take(at + 1) =~= items.take(at).push(items[at]));
    lemma_encode_items_concat(items.take(at + 1), items.skip(at + 1));
    assert(items =~= items.take(at + 1) + items.skip(at + 1));
    assert(items.skip(at).drop_first() =~= items.skip(at + 1));
}

pub proof fn lemma_encode_entries_concat(a: Seq<(Seq<char>, Tson)>, b: Seq<(Seq<char>, Tson)>)
    ensures
        encode_entries(a + b) == encode_entries(a) + encode_entries(b),
    decreases a.len(),
{
    if a.len() == 0 {
        assert(a + b =~= b);
        assert(encode_entries(a) + encode_entries(b) =~= encode_entries(b));
    } else {
        assert((a + b).drop_first() =~= a.drop_first() + b);
        lemma_encode_entries_concat(a.drop_first(), b);
        assert(encode_entries(a + b) =~= encode_entries(a) + encode_entries(b));
    }
}

pub proof fn lemma_encode_entries_push(entries: Seq<(Seq<char>, Tson)>, entry: (Seq<char>, Tson))
    ensures
        encode_entries(entries.push(entry)) == encode_entries(entries) + encode_entry(entry),
{
    lemma_encode_entries_concat(entries, seq![entry]);
    assert(entries.push(entry) =~= entries + seq![entry]);
    assert(seq![entry].drop_first() =~= Seq::<(Seq<char>, Tson)>::empty());
    assert(encode_entries(seq![entry]) =~= encode_entry(entry)) by {
        reveal_with_fuel(encode_entries, 2);
    }
}

/// The bytes of a map's entries are those of the entries before the one at `at`,
/// its own, and those of the entries after it.
pub proof fn lemma_encode_entries_split(entries: Seq<(Seq<char>, Tson)>, at: int)
    requires
        0 <= at < entries.len(),
    ensures
        encode_entries(entries) == encode_entries(entries.take(at)) + encode_entry(entries[at])
            + encode_entries(entries.skip(at + 1)),
        encode_entries(entries.take(at + 1)) == encode_entries(entries.take(at)) + encode_entry(
            entries[at],
        ),
        encode_entries(entries.skip(at)) == encode_entry(entries[at]) + encode_entries(
            entries.skip(at + 1),
        ),
{
    lemma_encode_entries_push(entries.take(at), entries[at]);
    assert(entries.take(at + 1) =~= entries.take(at).push(entries[at]));
    lemma_encode_entries_concat(entries.take(at + 1), entries.skip(at + 1));
    assert(entries =~= entries.take(at + 1) + entries.skip(at + 1));
    assert(entries.skip(at).drop_first() =~= entries.skip(at + 1));
}

/// The index of the first entry with the given key, or the number of entries
/// where none has it.
pub open spec fn key_index(entries: Seq<(Seq<char>, Tson)>, key: Seq<char>) -> int
    decreases entries.len(),
{
    if entries.len() == 0 {
        0
    } else if entries[0].0 == key {
        0
    } else {
        1 + key_index(entries.drop_first(), key)
    }
}

/// The entries with `key` bound to `value`: in the place of the entry that had
/// the key, or at the end.
pub open spec fn upsert(entries: Seq<(Seq<char>, Tson)>, key: Seq<char>, value: Tson) -> Seq<
    (Seq<char>, Tson),
> {
    let i = key_index(entries, key);
    if i < entries.len() {
        entries.update(i, (key, value))
    } else {
        entries.push((key, value))
    }
}

/// Reads a length field.
pub open spec fn parse_len(bytes: Seq<u8>) -> Result<(nat, Seq<u8>), ErrorKind> {
    if bytes.len() < 4 {
        Err(ErrorKind::UnexpectedEndOfInput)
    } else {
        Ok((le_nat(bytes.take(4)), bytes.skip(4)))
    }
}

/// Reads a tagged string: the key of a map entry, or the version token.
pub open spec fn parse_string(bytes: Seq<u8>) -> Result<(Seq<char>, Seq<u8>), ErrorKind> {
    if bytes.len() == 0 {
        Err(ErrorKind::UnexpectedEndOfInput)
    } else if bytes[0] != STRING_TYPE {
        Err(ErrorKind::TypeMismatch)
    } else {
        parse_text(bytes.skip(1))
    }
}

/// Reads the head of a container that must have the given tag: the length that it
/// declares and the bytes after the length field. Another tag is a type mismatch.
pub open spec fn parse_head(tag: u8, bytes: Seq<u8>) -> Result<(nat, Seq<u8>), ErrorKind> {
    if bytes.len() == 0 {
        Err(ErrorKind::UnexpectedEndOfInput)
    } else if bytes[0] != tag {
        Err(ErrorKind::TypeMismatch)
    } else {
        parse_len(bytes.skip(1))
    }
}

/// Reads the payload of a value with the given tag: the value and the bytes
/// after it. A tag that names no kind of value is a type mismatch.
pub open spec fn parse_payload(tag: u8, bytes: Seq<u8>) -> Result<(Tson, Seq<u8>), ErrorKind>
    decreases bytes.len(), 0nat,
{
    if tag == NULL_TYPE {
        Ok((Tson::NULL, bytes))
    } else if tag == STRING_TYPE {
        match parse_text(bytes) {
            Ok((text, rest)) => Ok((Tson::STR(text), rest)),
            Err(kind) => Err(kind),
        }
    } else if tag == INTEGER_TYPE {
        match parse_elem(Elem::I32, bytes) {
            Some((x, rest)) => Ok((Tson::I32(x as i32), rest)),
            None => Err(ErrorKind::UnexpectedEndOfInput),
        }
    } else if tag == DOUBLE_TYPE {
        match parse_elem(Elem::F64, bytes) {
            Some((x, rest)) => Ok((Tson::F64(x as u64), rest)),
            None => Err(ErrorKind::UnexpectedEndOfInput),
        }
    } else if tag == BOOL_TYPE {
        if bytes.len() == 0 {
            Err(ErrorKind::UnexpectedEndOfInput)
        } else {
            Ok((Tson::BOOL(bytes[0] != 0), bytes.skip(1)))
        }
    } else if tag == LIST_TYPE {
        match parse_len(bytes) {
            Ok((count, rest)) => match parse_items(rest, count, Seq::empty()) {
                Ok((items, rest)) => Ok((Tson::LST(items), rest)),
                Err(kind) => Err(kind),
            },
            Err(kind) => Err(kind),
        }
    } else if tag == MAP_TYPE {
        match parse_len(bytes) {
            Ok((count, rest)) => match parse_entries(rest, count, Seq::empty()) {
                Ok((entries, rest)) => Ok((Tson::MAP(entries), rest)),
                Err(kind) => Err(kind),
            },
            Err(kind) => Err(kind),
        }
    } else if tag == LIST_STRING_TYPE {
        match parse_len(bytes) {
            Ok((len, rest)) => match parse_packed(rest, len) {
                Ok(_) => Ok((Tson::LSTSTR(rest.take(len as int)), rest.skip(len as int))),
                Err(kind) => Err(kind),
            },
            Err(kind) => Err(kind),
        }
    } else {
        match Elem::of_tag(tag) {
            Some(kind) => match parse_len(bytes) {
                Ok((count, rest)) => match parse_elems(kind, rest, count) {
                    Some((xs, rest)) => Ok((Tson::NUM(kind, xs), rest)),
                    None => Err(ErrorKind::UnexpectedEndOfInput),
                },
                Err(kind) => Err(kind),
            },
            None => Err(ErrorKind::TypeMismatch),
        }
    }
}

/// Reads one value from the front of `bytes`: the value and the bytes after it.
pub open spec fn parse_object(bytes: Seq<u8>) -> Result<(Tson, Seq<u8>), ErrorKind>
    decreases bytes.len(), 1nat,
{
    if bytes.len() == 0 {
        Err(ErrorKind::UnexpectedEndOfInput)
    } else {
        parse_payload(bytes[0], bytes.skip(1))
    }
}

/// Reads `count` values and puts them after `got`. Every value takes at least
/// one byte (`lemma_parse_object_rest`); the test on the lengths is there to make
/// the definition well founded, and never fails.
pub open spec fn parse_items(bytes: Seq<u8>, count: nat, got: Seq<Tson>) -> Result<
    (Seq<Tson>, Seq<u8>),
    ErrorKind,
>
    decreases bytes.len(), 2 + count,
{
    if count == 0 {
        Ok((got, bytes))
    } else {
        match parse_object(bytes) {
            Ok((item, rest)) => if rest.len() < bytes.len() {
                parse_items(rest, (count - 1) as nat, got.push(item))
            } else {
                Err(ErrorKind::UnexpectedEndOfInput)
            },
            Err(kind) => Err(kind),
        }
    }
}

/// Reads `count` map entries into `got`: each a string key and a value. An entry
/// whose key is bound already takes the place of the earlier one. The test on the
/// lengths is there to make the definition well founded, and never fails.
pub open spec fn parse_entries(
    bytes: Seq<u8>,
    count: nat,
    got: Seq<(Seq<char>, Tson)>,
) -> Result<(Seq<(Seq<char>, Tson)>, Seq<u8>), ErrorKind>
    decreases bytes.len(), 2 + count,
{
    if count == 0 {
        Ok((got, bytes))
    } else {
        match parse_string(bytes) {
            Ok((key, rest)) => if rest.len() < bytes.len() {
                match parse_object(rest) {
                    Ok((value, rest)) => if rest.len() < bytes.len() {
                        parse_entries(rest, (count - 1) as nat, upsert(got, key, value))
                    } else {
                        Err(ErrorKind::UnexpectedEndOfInput)
                    },
                    Err(kind) => Err(kind),
                }
            } else {
                Err(ErrorKind::UnexpectedEndOfInput)
            },
            Err(kind) => Err(kind),
        }
    }
}

/// Reads the header: the bytes after it, where it holds the version token.
pub open spec fn parse_header(bytes: Seq<u8>) -> Result<Seq<u8>, ErrorKind> {
    match parse_string(bytes) {
        Ok((text, rest)) => if text == VERSION@ {
            Ok(rest)
        } else {
            Err(ErrorKind::VersionMismatch)
        },
        Err(kind) => Err(kind),
    }
}

/// Reads a whole stream: the header, then one value; the value and the bytes
/// after it.
pub open spec fn parse(bytes: Seq<u8>) -> Result<(Tson, Seq<u8>), ErrorKind> {
    match parse_header(bytes) {
        Ok(rest) => parse_object(rest),
        Err(kind) => Err(kind),
    }
}

/// Every value takes at least its tag: what is left after reading one is
/// shorter than the input.
pub proof fn lemma_parse_object_rest(bytes: Seq<u8>)
    requires
        parse_object(bytes) is Ok,
    ensures
        parse_object(bytes)->Ok_0.1.len() < bytes.len(),
    decreases bytes.len(), 1nat,
{
    lemma_parse_payload_rest(bytes[0], bytes.skip(1));
}

/// What is left after reading a payload is no longer than the input.
pub proof fn lemma_parse_payload_rest(tag: u8, bytes: Seq<u8>)
    requires
        parse_payload(tag, bytes) is Ok,
    ensures
        parse_payload(tag, bytes)->Ok_0.1.len() <= bytes.len(),
    decreases bytes.len(), 0nat,
{
    if tag == LIST_TYPE {
        let (count, rest) = parse_len(bytes)->Ok_0;
        lemma_parse_items_rest(rest, count, Seq::empty());
    } else if tag == MAP_TYPE {
        let (count, rest) = parse_len(bytes)->Ok_0;
        lemma_parse_entries_rest(rest, count, Seq::empty());
    } else if tag == LIST_STRING_TYPE {
        let (len, rest) = parse_len(bytes)->Ok_0;
        lemma_parse_packed_len(rest, len);
    } else if tag == NULL_TYPE || tag == STRING_TYPE || tag == INTEGER_TYPE || tag == DOUBLE_TYPE
        || tag == BOOL_TYPE {
    } else {
        let kind = Elem::of_tag(tag)->Some_0;
        let (count, rest) = parse_len(bytes)->Ok_0;
        lemma_parse_elems_rest(kind, rest, count);
    }
}

/// What is left after reading items is no longer than the input, and the test on
/// the lengths in `parse_items` never fails.
pub proof fn lemma_parse_items_rest(bytes: Seq<u8>, count: nat, got: Seq<Tson>)
    ensures
        parse_items(bytes, count, got) is Ok ==> parse_items(bytes, count, got)->Ok_0.1.len()
            <= bytes.len() && parse_items(bytes, count, got)->Ok_0.0.len() == got.len() + count,
        count > 0 ==> parse_items(bytes, count, got) == match parse_object(bytes) {
            Ok((item, rest)) => parse_items(rest, (count - 1) as nat, got.push(item)),
            Err(kind) => Err(kind),
        },
    decreases bytes.len(), 2 + count,
{
    if count > 0 {
        match parse_object(bytes) {
            Ok((item, rest)) => {
                lemma_parse_object_rest(bytes);
                lemma_parse_items_rest(rest, (count - 1) as nat, got.push(item));
            },
            Err(_) => {},
        }
    }
}

/// What is left after reading entries is no longer than the input, and the tests
/// on the lengths in `parse_entries` never fail.
pub proof fn lemma_parse_entries_rest(bytes: Seq<u8>, count: nat, got: Seq<(Seq<char>, Tson)>)
    ensures
        parse_entries(bytes, count, got) is Ok ==> parse_entries(bytes, count, got)->Ok_0.1.len()
            <= bytes.len(),
        count > 0 ==> parse_entries(bytes, count, got) == match parse_string(bytes) {
            Ok((key, rest)) => match parse_object(rest) {
                Ok((value, rest)) => parse_entries(
                    rest,
                    (count - 1) as nat,
                    upsert(got, key, value),
                ),
                Err(kind) => Err(kind),
            },
            Err(kind) => Err(kind),
        },
    decreases bytes.len(), 2 + count,
{
    if count > 0 {
        match parse_string(bytes) {
            Ok((key, rest)) => {
                match parse_object(rest) {
                    Ok((value, after)) => {
                        lemma_parse_object_rest(rest);
                        lemma_parse_entries_rest(
                            after,
                            (count - 1) as nat,
                            upsert(got, key, value),
                        );
                    },
                    Err(_) => {},
                }
            },
            Err(_) => {},
        }
    }
}

} // verus!
