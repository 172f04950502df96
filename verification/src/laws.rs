//! What holds of the wire format as a whole: a value that is written and read
//! again is the value that was written.

use vstd::prelude::*;
use vstd::utf8::{encode_utf8, is_ascii_chars, is_ascii_chars_encode_utf8};
use crate::elem::{Elem, encode_elems, parse_elem, lemma_elem_round_trip, lemma_parse_elems_hold,
    lemma_parse_elems_rest, lemma_parse_encode_elems};
use crate::error::ErrorKind;
use crate::le::{lemma_le_bytes_len, lemma_le_nat_bound, lemma_le_nat_of_bytes, lemma_pow256_values};
use crate::strvec::{pack, lemma_parse_packed_take, lemma_parse_packed_with_tail};
use crate::tags::{BOOL_TYPE, DOUBLE_TYPE, INTEGER_TYPE, LIST_STRING_TYPE, LIST_TYPE, MAP_TYPE,
    MAX_LIST_LENGTH, NULL_TYPE, STRING_TYPE, VERSION};
use crate::text::{cstring, plain, lemma_parse_text_cstring, lemma_parse_text_ok};
use crate::value::{Tson, Value, distinct_keys};
use crate::wire::{encode, encode_entries, encode_entry, encode_items, encode_object, encode_payload,
    encode_string, key_index, len_field, parse, parse_entries, parse_head, parse_items, parse_len,
    parse_object, parse_payload, parse_string, tag_of, upsert, lemma_encode_object_len,
    lemma_parse_entries_rest, lemma_parse_items_rest, lemma_parse_object_rest};

verus! {

/// The version token holds no NUL byte.
pub proof fn lemma_version_plain()
    ensures
        plain(VERSION@),
{
    reveal_strlit("1.1.0");
    let chars = VERSION@;
    assert(is_ascii_chars(chars)) by {
        assert forall|i: int| 0 <= i < chars.len() implies '\0' <= #[trigger] chars[i]
            <= '\x7f' by {
            assert(chars[0] == '1' && chars[1] == '.' && chars[2] == '1' && chars[3] == '.'
                && chars[4] == '0');
        }
    }
    is_ascii_chars_encode_utf8(chars);
    assert(chars[0] == '1' && chars[1] == '.' && chars[2] == '1' && chars[3] == '.' && chars[4]
        == '0');
}

/// A length that fits the length field, whatever follows it, is read back.
pub proof fn lemma_parse_len_field(len: nat, tail: Seq<u8>)
    requires
        len <= MAX_LIST_LENGTH,
    ensures
        parse_len(len_field(len) + tail) == Ok::<_, ErrorKind>((len, tail)),
{
    lemma_pow256_values();
    lemma_le_bytes_len(len, 4);
    lemma_le_nat_of_bytes(len, 4);
    assert((len_field(len) + tail).take(4) =~= len_field(len));
    assert((len_field(len) + tail).skip(4) =~= tail);
}

/// A tagged plain text, whatever follows it, is read back.
pub proof fn lemma_parse_encode_string(text: Seq<char>, tail: Seq<u8>)
    requires
        plain(text),
    ensures
        parse_string(encode_string(text) + tail) == Ok::<_, ErrorKind>((text, tail)),
{
    let all = encode_string(text) + tail;
    assert(all.skip(1) =~= cstring(text) + tail);
    lemma_parse_text_cstring(text, tail);
}

/// One element, whatever follows it, is read back.
pub proof fn lemma_parse_elem_bytes(kind: Elem, x: int, tail: Seq<u8>)
    requires
        kind.holds(x),
    ensures
        parse_elem(kind, kind.bytes(x) + tail) == Some((x, tail)),
{
    lemma_elem_round_trip(kind, x);
    let w = kind.width() as int;
    assert((kind.bytes(x) + tail).take(w) =~= kind.bytes(x));
    assert((kind.bytes(x) + tail).skip(w) =~= tail);
}

/// Where no entry has the key, the key's index is the number of entries.
pub proof fn lemma_key_index_absent(entries: Seq<(Seq<char>, Tson)>, key: Seq<char>)
    requires
        forall|i: int| 0 <= i < entries.len() ==> (#[trigger] entries[i]).0 != key,
    ensures
        key_index(entries, key) == entries.len(),
    decreases entries.len(),
{
    if entries.len() > 0 {
        let rest = entries.drop_first();
        assert forall|i: int| 0 <= i < rest.len() implies (#[trigger] rest[i]).0 != key by {
            assert(rest[i] == entries[i + 1]);
        }
        lemma_key_index_absent(rest, key);
    }
}

/// The numbers of a vector of machine integers are values of their type.
pub proof fn lemma_value_elems_hold(value: Value)
    ensures
        match value@ {
            Tson::NUM(kind, xs) => kind.holds_all(xs),
            _ => true,
        },
{
    lemma_pow256_values();
}

/// A well-formed scalar, whatever follows it, is read back as it was.
proof fn lemma_parse_encode_scalar(value: Tson, tail: Seq<u8>)
    requires
        value.wf(),
        value.declared_len() is None,
    ensures
        parse_payload(tag_of(value), encode_payload(value) + tail) == Ok::<_, ErrorKind>(
            (value, tail),
        ),
{
    let payload = encode_payload(value);
    match value {
        Tson::NULL => {
            assert(payload + tail =~= tail);
        },
        Tson::STR(text) => {
            lemma_parse_text_cstring(text, tail);
        },
        Tson::I32(x) => {
            lemma_pow256_values();
            lemma_parse_elem_bytes(Elem::I32, x as int, tail);
        },
        Tson::F64(bits) => {
            lemma_pow256_values();
            lemma_parse_elem_bytes(Elem::F64, bits as int, tail);
        },
        Tson::BOOL(b) => {
            assert((payload + tail).skip(1) =~= tail);
            assert((payload + tail)[0] == payload[0]);
        },
        _ => {},
    }
}

/// A well-formed typed list, whatever follows it, is read back as it was.
proof fn lemma_parse_encode_num(kind: Elem, xs: Seq<int>, tail: Seq<u8>)
    requires
        Tson::NUM(kind, xs).wf(),
    ensures
        parse_payload(kind.tag(), len_field(xs.len()) + (encode_elems(kind, xs) + tail)) == Ok::<
            _,
            ErrorKind,
        >((Tson::NUM(kind, xs), tail)),
{
    lemma_parse_len_field(xs.len(), encode_elems(kind, xs) + tail);
    lemma_parse_encode_elems(kind, xs, tail);
    assert(Elem::of_tag(kind.tag()) == Some(kind));
}

/// A well-formed string list, whatever follows it, is read back as it was.
proof fn lemma_parse_encode_strs(bytes: Seq<u8>, tail: Seq<u8>)
    requires
        Tson::LSTSTR(bytes).wf(),
    ensures
        parse_payload(LIST_STRING_TYPE, len_field(bytes.len()) + (bytes + tail)) == Ok::<
            _,
            ErrorKind,
        >((Tson::LSTSTR(bytes), tail)),
{
    lemma_parse_len_field(bytes.len(), bytes + tail);
    lemma_parse_packed_with_tail(bytes, bytes.len(), tail);
    assert((bytes + tail).take(bytes.len() as int) =~= bytes);
    assert((bytes + tail).skip(bytes.len() as int) =~= tail);
}

/// One well-formed value, whatever follows it, is read back as it was.
#[verifier::rlimit(50)]
pub proof fn lemma_parse_encode_object(value: Tson, tail: Seq<u8>)
    requires
        value.wf(),
    ensures
        parse_object(encode_object(value) + tail) == Ok::<_, ErrorKind>((value, tail)),
    decreases value, 1nat,
{
    let all = encode_object(value) + tail;
    let payload = encode_payload(value);
    lemma_encode_object_len(value);
    assert(all[0] == tag_of(value));
    match value {
        Tson::LST(items) => {
            assert(all.skip(1) =~= len_field(items.len()) + (payload + tail));
            lemma_parse_len_field(items.len(), payload + tail);
            lemma_parse_encode_items(items, tail, Seq::empty());
            assert(Seq::<Tson>::empty() + items =~= items);
        },
        Tson::MAP(entries) => {
            assert(all.skip(1) =~= len_field(entries.len()) + (payload + tail));
            lemma_parse_len_field(entries.len(), payload + tail);
            assert(Seq::<(Seq<char>, Tson)>::empty() + entries =~= entries);
            lemma_parse_encode_entries(entries, tail, Seq::empty());
        },
        Tson::NUM(kind, xs) => {
            assert(all.skip(1) =~= len_field(xs.len()) + (payload + tail));
            lemma_parse_encode_num(kind, xs, tail);
        },
        Tson::LSTSTR(bytes) => {
            assert(all.skip(1) =~= len_field(bytes.len()) + (payload + tail));
            lemma_parse_encode_strs(bytes, tail);
        },
        _ => {
            assert(all.skip(1) =~= payload + tail);
            lemma_parse_encode_scalar(value, tail);
        },
    }
}

/// The items of a list, whatever follows them, are read back after what was read
/// before them.
pub proof fn lemma_parse_encode_items(items: Seq<Tson>, tail: Seq<u8>, got: Seq<Tson>)
    requires
        forall|i: int| 0 <= i < items.len() ==> (#[trigger] items[i]).wf(),
    ensures
        parse_items(encode_items(items) + tail, items.len(), got) == Ok::<_, ErrorKind>(
            (got + items, tail),
        ),
    decreases items, 0nat,
{
    if items.len() == 0 {
        assert(encode_items(items) + tail =~= tail);
        assert(got + items =~= got);
    } else {
        let rest = items.drop_first();
        let all = encode_items(items) + tail;
        assert(all =~= encode_object(items[0]) + (encode_items(rest) + tail));
        lemma_parse_encode_object(items[0], encode_items(rest) + tail);
        lemma_encode_object_len(items[0]);
        assert forall|i: int| 0 <= i < rest.len() implies (#[trigger] rest[i]).wf() by {
            assert(rest[i] == items[i + 1]);
        }
        lemma_parse_encode_items(rest, tail, got.push(items[0]));
        assert(got.push(items[0]) + rest =~= got + items);
    }
}

/// The entries of a map, whatever follows them, are read back after what was
/// read before them, where no key comes twice.
#[verifier::rlimit(50)]
pub proof fn lemma_parse_encode_entries(
    entries: Seq<(Seq<char>, Tson)>,
    tail: Seq<u8>,
    got: Seq<(Seq<char>, Tson)>,
)
    requires
        forall|i: int|
            0 <= i < entries.len() ==> plain((#[trigger] entries[i]).0) && entries[i].1.wf(),
        distinct_keys(got + entries),
    ensures
        parse_entries(encode_entries(entries) + tail, entries.len(), got) == Ok::<_, ErrorKind>(
            (got + entries, tail),
        ),
    decreases entries, 0nat,
{
    if entries.len() == 0 {
        assert(encode_entries(entries) + tail =~= tail);
        assert(got + entries =~= got);
    } else {
        let key = entries[0].0;
        let value = entries[0].1;
        let rest = entries.drop_first();
        let all = encode_entries(entries) + tail;
        let after_key = encode_object(value) + (encode_entries(rest) + tail);
        assert(encode_entry(entries[0]) == encode_string(key) + encode_object(value));
        assert(all =~= encode_string(key) + after_key);
        lemma_parse_encode_string(key, after_key);
        lemma_encode_object_len(value);
        lemma_parse_encode_object(value, encode_entries(rest) + tail);
        assert forall|i: int| 0 <= i < got.len() implies (#[trigger] got[i]).0 != key by {
            assert((got + entries)[i] == got[i]);
            assert((got + entries)[got.len() as int] == entries[0]);
        }
        lemma_key_index_absent(got, key);
        assert(upsert(got, key, value) == got.push(entries[0]));
        assert(got.push(entries[0]) + rest =~= got + entries);
        assert forall|i: int| 0 <= i < rest.len() implies plain((#[trigger] rest[i]).0)
            && rest[i].1.wf() by {
            assert(rest[i] == entries[i + 1]);
        }
        lemma_parse_encode_entries(rest, tail, got.push(entries[0]));
    }
}

/// Round trip: the stream of a well-formed value is read as that value, with
/// nothing left.
pub proof fn lemma_round_trip(value: Tson)
    requires
        value.wf(),
    ensures
        parse(encode(value)) == Ok::<_, ErrorKind>((value, Seq::<u8>::empty())),
{
    lemma_version_plain();
    lemma_parse_encode_string(VERSION@, encode_object(value));
    lemma_parse_encode_object(value, Seq::empty());
    assert(encode_object(value) + Seq::<u8>::empty() =~= encode_object(value));
}

/// The index of a key is the place of the first entry that has it.
pub proof fn lemma_key_index(entries: Seq<(Seq<char>, Tson)>, key: Seq<char>)
    ensures
        0 <= key_index(entries, key) <= entries.len(),
        key_index(entries, key) < entries.len() ==> entries[key_index(entries, key)].0 == key,
        forall|i: int| 0 <= i < key_index(entries, key) ==> (#[trigger] entries[i]).0 != key,
    decreases entries.len(),
{
    if entries.len() > 0 && entries[0].0 != key {
        let rest = entries.drop_first();
        lemma_key_index(rest, key);
        assert forall|i: int| 0 <= i < key_index(entries, key) implies (#[trigger] entries[i]).0
            != key by {
            if i > 0 {
                assert(entries[i] == rest[i - 1]);
            }
        }
    }
}

/// Whether every entry has a plain key and a well-formed value.
pub open spec fn entries_wf(entries: Seq<(Seq<char>, Tson)>) -> bool {
    forall|i: int|
        0 <= i < entries.len() ==> plain((#[trigger] entries[i]).0) && entries[i].1.wf()
}

/// Binding a key keeps the keys apart and the entries well formed, and adds one
/// entry at most.
pub proof fn lemma_upsert(entries: Seq<(Seq<char>, Tson)>, key: Seq<char>, value: Tson)
    requires
        distinct_keys(entries),
        entries_wf(entries),
        plain(key),
        value.wf(),
    ensures
        distinct_keys(upsert(entries, key, value)),
        entries_wf(upsert(entries, key, value)),
        entries.len() <= upsert(entries, key, value).len() <= entries.len() + 1,
{
    lemma_key_index(entries, key);
    let i = key_index(entries, key);
    let after = upsert(entries, key, value);
    if i < entries.len() {
        assert forall|a: int, b: int|
            0 <= a < after.len() && 0 <= b < after.len() && a != b implies after[a].0
            != after[b].0 by {
            assert(after[a].0 == entries[a].0);
            assert(after[b].0 == entries[b].0);
        }
        assert forall|a: int| 0 <= a < after.len() implies plain((#[trigger] after[a]).0)
            && after[a].1.wf() by {
            if a != i {
                assert(after[a] == entries[a]);
            }
        }
    } else {
        assert forall|a: int, b: int|
            0 <= a < after.len() && 0 <= b < after.len() && a != b implies after[a].0
            != after[b].0 by {
            if a < entries.len() {
                assert(after[a] == entries[a]);
            }
            if b < entries.len() {
                assert(after[b] == entries[b]);
            }
        }
        assert forall|a: int| 0 <= a < after.len() implies plain((#[trigger] after[a]).0)
            && after[a].1.wf() by {
            if a < entries.len() {
                assert(after[a] == entries[a]);
            }
        }
    }
}

/// A length that is read fits the length field.
pub proof fn lemma_parse_len_fits(bytes: Seq<u8>)
    requires
        parse_len(bytes) is Ok,
    ensures
        parse_len(bytes)->Ok_0.0 <= MAX_LIST_LENGTH,
{
    lemma_pow256_values();
    lemma_le_nat_bound(bytes.take(4));
}

/// What is read is well formed: a value that comes out of the decoder is one
/// that the wire format can carry and give back.
pub proof fn lemma_parse_object_wf(bytes: Seq<u8>)
    requires
        parse_object(bytes) is Ok,
    ensures
        parse_object(bytes)->Ok_0.0.wf(),
    decreases bytes.len(), 1nat,
{
    lemma_parse_payload_wf(bytes[0], bytes.skip(1));
}

/// The value that a payload is read as is well formed.
pub proof fn lemma_parse_payload_wf(tag: u8, bytes: Seq<u8>)
    requires
        parse_payload(tag, bytes) is Ok,
    ensures
        parse_payload(tag, bytes)->Ok_0.0.wf(),
    decreases bytes.len(), 0nat,
{
    if tag == NULL_TYPE || tag == INTEGER_TYPE || tag == DOUBLE_TYPE || tag == BOOL_TYPE {
    } else if tag == STRING_TYPE {
        lemma_parse_text_ok(bytes);
    } else {
        let (count, rest) = parse_len(bytes)->Ok_0;
        lemma_parse_len_fits(bytes);
        if tag == LIST_TYPE {
            lemma_parse_items_wf(rest, count, Seq::empty());
        } else if tag == MAP_TYPE {
            lemma_parse_entries_wf(rest, count, Seq::empty());
        } else if tag == LIST_STRING_TYPE {
            lemma_parse_packed_take(rest, count);
        } else {
            let kind = Elem::of_tag(tag)->Some_0;
            lemma_parse_elems_rest(kind, rest, count);
            lemma_parse_elems_hold(kind, rest, count);
        }
    }
}

/// The items that are read after well-formed items are well formed.
pub proof fn lemma_parse_items_wf(bytes: Seq<u8>, count: nat, got: Seq<Tson>)
    requires
        parse_items(bytes, count, got) is Ok,
        forall|i: int| 0 <= i < got.len() ==> (#[trigger] got[i]).wf(),
    ensures
        parse_items(bytes, count, got)->Ok_0.0.len() == got.len() + count,
        forall|i: int|
            0 <= i < parse_items(bytes, count, got)->Ok_0.0.len() ==> (#[trigger] parse_items(
                bytes,
                count,
                got,
            )->Ok_0.0[i]).wf(),
    decreases bytes.len(), 2 + count,
{
    if count > 0 {
        lemma_parse_items_rest(bytes, count, got);
        let (item, rest) = parse_object(bytes)->Ok_0;
        lemma_parse_object_rest(bytes);
        lemma_parse_object_wf(bytes);
        let more = got.push(item);
        assert forall|i: int| 0 <= i < more.len() implies (#[trigger] more[i]).wf() by {
            if i < got.len() {
                assert(more[i] == got[i]);
            }
        }
        lemma_parse_items_wf(rest, (count - 1) as nat, more);
    }
}

/// The entries that are read into well-formed entries with keys apart are well
/// formed, with keys apart.
pub proof fn lemma_parse_entries_wf(bytes: Seq<u8>, count: nat, got: Seq<(Seq<char>, Tson)>)
    requires
        parse_entries(bytes, count, got) is Ok,
        distinct_keys(got),
        entries_wf(got),
    ensures
        distinct_keys(parse_entries(bytes, count, got)->Ok_0.0),
        entries_wf(parse_entries(bytes, count, got)->Ok_0.0),
        parse_entries(bytes, count, got)->Ok_0.0.len() <= got.len() + count,
    decreases bytes.len(), 2 + count,
{
    if count > 0 {
        lemma_parse_entries_rest(bytes, count, got);
        let (key, rest) = parse_string(bytes)->Ok_0;
        let (value, after) = parse_object(rest)->Ok_0;
        lemma_parse_text_ok(bytes.skip(1));
        lemma_parse_object_rest(rest);
        lemma_parse_object_wf(rest);
        lemma_upsert(got, key, value);
        lemma_parse_entries_wf(after, (count - 1) as nat, upsert(got, key, value));
    }
}

/// Walking a map is reading it: what the one-shot decoder reads as a map is the
/// head that a map cursor reads, and then entry after entry a tagged string for
/// the key and one value, as `parse_entries` reads them
/// (`lemma_parse_entries_rest`).
pub proof fn lemma_map_by_entries(bytes: Seq<u8>)
    requires
        bytes.len() > 0,
        bytes[0] == MAP_TYPE,
    ensures
        parse_object(bytes) == match parse_head(MAP_TYPE, bytes) {
            Ok((count, rest)) => match parse_entries(rest, count, Seq::empty()) {
                Ok((entries, after)) => Ok((Tson::MAP(entries), after)),
                Err(kind) => Err(kind),
            },
            Err(kind) => Err(kind),
        },
{
}

/// Walking a list is reading it: what the one-shot decoder reads as a list is the
/// head that a list cursor reads, and then value after value, as `parse_items`
/// reads them (`lemma_parse_items_rest`).
pub proof fn lemma_list_by_items(bytes: Seq<u8>)
    requires
        bytes.len() > 0,
        bytes[0] == LIST_TYPE,
    ensures
        parse_object(bytes) == match parse_head(LIST_TYPE, bytes) {
            Ok((count, rest)) => match parse_items(rest, count, Seq::empty()) {
                Ok((items, after)) => Ok((Tson::LST(items), after)),
                Err(kind) => Err(kind),
            },
            Err(kind) => Err(kind),
        },
{
}

/// The number of bytes that the strings of a string list take: for each string
/// its UTF-8 bytes and one NUL byte.
pub open spec fn packed_len(texts: Seq<Seq<char>>) -> nat
    decreases texts.len(),
{
    if texts.len() == 0 {
        0
    } else {
        encode_utf8(texts[0]).len() + 1 + packed_len(texts.drop_first())
    }
}

/// The length field of a string list counts the bytes of its strings, not the
/// strings.
pub proof fn lemma_string_list_len(texts: Seq<Seq<char>>)
    ensures
        pack(texts).len() == packed_len(texts),
        encode_object(Tson::LSTSTR(pack(texts))) == seq![LIST_STRING_TYPE] + len_field(
            packed_len(texts),
        ) + pack(texts),
    decreases texts.len(),
{
    if texts.len() > 0 {
        lemma_string_list_len(texts.drop_first());
    }
}

/// A typed list is its tag, its length field, and for each element as many bytes
/// as the element type is wide.
pub proof fn lemma_typed_list_len(kind: Elem, xs: Seq<int>)
    ensures
        encode_elems(kind, xs).len() == xs.len() * kind.width(),
        encode_object(Tson::NUM(kind, xs)).len() == 5 + xs.len() * kind.width(),
    decreases xs.len(),
{
    lemma_encode_object_len(Tson::NUM(kind, xs));
    if xs.len() > 0 {
        lemma_le_bytes_len(kind.code(xs[0]), kind.width());
        lemma_typed_list_len(kind, xs.drop_first());
        assert(xs.len() * kind.width() == kind.width() + (xs.len() - 1) * kind.width())
            by (nonlinear_arith);
    }
}

/// The chunks of a run, one after the other.
pub open spec fn join(chunks: Seq<Seq<u8>>) -> Seq<u8>
    decreases chunks.len(),
{
    if chunks.len() == 0 {
        Seq::empty()
    } else {
        chunks[0] + join(chunks.drop_first())
    }
}

/// Whether `pendings` and `chunks` are a run of a resumable encoder: what the
/// encoder had yet to write before each call and after the last, and the chunk
/// that each call wrote. It is what `write` ensures of each call: the pending
/// bytes before it are the chunk and the pending bytes after it.
pub open spec fn is_run(pendings: Seq<Seq<u8>>, chunks: Seq<Seq<u8>>) -> bool {
    &&& pendings.len() == chunks.len() + 1
    &&& forall|i: int|
        0 <= i < chunks.len() ==> (#[trigger] pendings[i]) == chunks[i] + pendings[i + 1]
}

/// The chunks of a run are the bytes that were pending at its start without
/// those that are pending at its end.
pub proof fn lemma_run_joins(pendings: Seq<Seq<u8>>, chunks: Seq<Seq<u8>>)
    requires
        is_run(pendings, chunks),
    ensures
        pendings[0] == join(chunks) + pendings.last(),
    decreases chunks.len(),
{
    if chunks.len() == 0 {
        assert(join(chunks) + pendings.last() =~= pendings[0]);
    } else {
        let rest = pendings.drop_first();
        let more = chunks.drop_first();
        assert forall|i: int| 0 <= i < more.len() implies (#[trigger] rest[i]) == more[i] + rest[i
            + 1] by {
            assert(rest[i] == pendings[i + 1]);
            assert(rest[i + 1] == pendings[i + 2]);
            assert(more[i] == chunks[i + 1]);
        }
        lemma_run_joins(rest, more);
        assert(rest[0] == pendings[1]);
        assert(rest.last() == pendings.last());
        assert(pendings[0] =~= join(chunks) + pendings.last());
    }
}

/// Chunk equivalence: a run of a resumable encoder, of either kind and with any
/// budget, that starts at a new encoder for `value` and ends with nothing
/// pending has written the bytes of the one-shot encoding, chunk after chunk.
pub proof fn lemma_chunk_equivalence(value: Tson, pendings: Seq<Seq<u8>>, chunks: Seq<Seq<u8>>)
    requires
        is_run(pendings, chunks),
        pendings[0] == encode(value),
        pendings.last().len() == 0,
    ensures
        join(chunks) == encode(value),
{
    lemma_run_joins(pendings, chunks);
    assert(join(chunks) + pendings.last() =~= join(chunks));
}

/// Encoding again: two runs over the same value, each to its end, have written
/// the same bytes, whatever their budgets.
pub proof fn lemma_reencode(
    value: Tson,
    pendings: Seq<Seq<u8>>,
    chunks: Seq<Seq<u8>>,
    pendings_again: Seq<Seq<u8>>,
    chunks_again: Seq<Seq<u8>>,
)
    requires
        is_run(pendings, chunks),
        is_run(pendings_again, chunks_again),
        pendings[0] == encode(value),
        pendings_again[0] == encode(value),
        pendings.last().len() == 0,
        pendings_again.last().len() == 0,
    ensures
        join(chunks) == join(chunks_again),
{
    lemma_chunk_equivalence(value, pendings, chunks);
    lemma_chunk_equivalence(value, pendings_again, chunks_again);
}

} // verus!
