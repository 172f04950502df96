//! What holds of a stream that was cut short: reading any proper prefix of the
//! bytes of a well-formed value ends too early, and with no other error.

use vstd::prelude::*;
use vstd::utf8::encode_utf8;
use crate::elem::{Elem, encode_elems, parse_elems, lemma_elem_round_trip};
use crate::error::ErrorKind;
use crate::laws::{lemma_parse_encode_object, lemma_parse_encode_string, lemma_parse_len_field,
    lemma_version_plain};
use crate::le::{lemma_le_bytes_len, lemma_pow256_values};
use crate::strvec::parse_packed;
use crate::tags::VERSION;
use crate::text::{cstring, parse_text, past_text, plain, span, lemma_span, lemma_span_is};
use crate::value::Tson;
use crate::wire::{encode, encode_entries, encode_entry, encode_items, encode_object, encode_payload,
    encode_string, header, len_field, parse, parse_entries, parse_items, parse_object,
    parse_payload, parse_string, tag_of, upsert, lemma_encode_object_len};

verus! {

/// A prefix of two byte strings in a row is a prefix of the first, or the first
/// and a prefix of the second.
pub proof fn lemma_take_concat(a: Seq<u8>, b: Seq<u8>, k: int)
    requires
        0 <= k <= a.len() + b.len(),
    ensures
        k <= a.len() ==> (a + b).take(k) == a.take(k),
        k >= a.len() ==> (a + b).take(k) == a + b.take(k - a.len()),
{
    if k <= a.len() {
        assert((a + b).take(k) =~= a.take(k));
    }
    if k >= a.len() {
        assert((a + b).take(k) =~= a + b.take(k - a.len()));
    }
}

/// A text field that was cut short ends too early.
pub proof fn lemma_cut_text(text: Seq<char>, k: int)
    requires
        plain(text),
        0 <= k < cstring(text).len(),
    ensures
        parse_text(cstring(text).take(k)) == Err::<(Seq<char>, Seq<u8>), _>(
            ErrorKind::UnexpectedEndOfInput,
        ),
{
    let cut = cstring(text).take(k);
    assert(cut =~= encode_utf8(text).take(k));
    assert(cut.take(k) =~= cut);
    lemma_span_is(cut, k);
}

/// A tagged string that was cut short ends too early.
pub proof fn lemma_cut_string(text: Seq<char>, k: int)
    requires
        plain(text),
        0 <= k < encode_string(text).len(),
    ensures
        parse_string(encode_string(text).take(k)) == Err::<(Seq<char>, Seq<u8>), _>(
            ErrorKind::UnexpectedEndOfInput,
        ),
{
    if k > 0 {
        let cut = encode_string(text).take(k);
        assert(cut.skip(1) =~= cstring(text).take(k - 1));
        lemma_cut_text(text, k - 1);
    }
}

/// Packed elements that were cut short are not all read.
pub proof fn lemma_cut_elems(kind: Elem, xs: Seq<int>, k: int)
    requires
        kind.holds_all(xs),
        0 <= k < encode_elems(kind, xs).len(),
    ensures
        parse_elems(kind, encode_elems(kind, xs).take(k), xs.len()) is None,
    decreases xs.len(),
{
    let w = kind.width() as int;
    let all = encode_elems(kind, xs);
    let cut = all.take(k);
    if xs.len() > 0 {
        let rest = xs.drop_first();
        lemma_elem_round_trip(kind, xs[0]);
        if k >= w {
            lemma_take_concat(kind.bytes(xs[0]), encode_elems(kind, rest), k);
            assert(cut.take(w) =~= kind.bytes(xs[0]));
            assert(cut.skip(w) =~= encode_elems(kind, rest).take(k - w));
            lemma_cut_elems(kind, rest, k - w);
        }
    }
}

/// A well-packed buffer that was cut short is not read to the end that its
/// length declares.
pub proof fn lemma_cut_packed(bytes: Seq<u8>, len: nat, k: int)
    requires
        parse_packed(bytes, len) is Ok,
        len <= bytes.len(),
        0 <= k < len,
    ensures
        parse_packed(bytes.take(k), len) == Err::<(), _>(ErrorKind::UnexpectedEndOfInput),
    decreases len,
{
    let n = span(bytes) as int;
    let cut = bytes.take(k);
    lemma_span(bytes);
    if k <= n {
        assert(cut.take(k) =~= bytes.take(n).take(k));
        lemma_span_is(cut, k);
    } else {
        assert(cut.take(n) =~= bytes.take(n));
        assert(cut[n] == 0);
        lemma_span_is(cut, n);
        assert(past_text(cut) =~= past_text(bytes).take(k - (n + 1)));
        lemma_cut_packed(past_text(bytes), (len - (n + 1)) as nat, k - (n + 1));
    }
}

/// A value that was cut short ends too early.
#[verifier::rlimit(50)]
pub proof fn lemma_cut_object(value: Tson, k: int)
    requires
        value.wf(),
        0 <= k < encode_object(value).len(),
    ensures
        parse_object(encode_object(value).take(k)) == Err::<(Tson, Seq<u8>), _>(
            ErrorKind::UnexpectedEndOfInput,
        ),
    decreases value, 1nat,
{
    let all = encode_object(value);
    let cut = all.take(k);
    let payload = encode_payload(value);
    lemma_encode_object_len(value);
    if k > 0 {
        assert(cut[0] == tag_of(value));
        match value.declared_len() {
            None => {
                assert(cut.skip(1) =~= payload.take(k - 1));
                lemma_cut_scalar(value, k - 1);
            },
            Some(len) => {
                let field = len_field(len);
                lemma_le_bytes_len(len, 4);
                let body = field + payload;
                assert(cut.skip(1) =~= body.take(k - 1));
                lemma_take_concat(field, payload, k - 1);
                if k - 1 >= 4 {
                    let part = payload.take(k - 5);
                    lemma_parse_len_field(len, part);
                    lemma_cut_payload(value, k - 5);
                } else {
                    assert(Elem::of_tag(tag_of(value)) is Some || value is LST || value is MAP
                        || value is LSTSTR);
                }
            },
        }
    }
}

/// The payload of a scalar that was cut short ends too early.
proof fn lemma_cut_scalar(value: Tson, k: int)
    requires
        value.wf(),
        value.declared_len() is None,
        0 <= k < encode_payload(value).len(),
    ensures
        parse_payload(tag_of(value), encode_payload(value).take(k)) == Err::<
            (Tson, Seq<u8>),
            _,
        >(ErrorKind::UnexpectedEndOfInput),
{
    lemma_pow256_values();
    match value {
        Tson::STR(text) => {
            lemma_cut_text(text, k);
        },
        Tson::I32(x) => {
            lemma_elem_round_trip(Elem::I32, x as int);
        },
        Tson::F64(bits) => {
            lemma_elem_round_trip(Elem::F64, bits as int);
        },
        _ => {},
    }
}

/// What follows the length field of a container, cut short, ends too early.
proof fn lemma_cut_payload(value: Tson, k: int)
    requires
        value.wf(),
        value.declared_len() is Some,
        0 <= k < encode_payload(value).len(),
    ensures
        match value {
            Tson::LST(items) => parse_items(
                encode_payload(value).take(k),
                items.len(),
                Seq::empty(),
            ) == Err::<(Seq<Tson>, Seq<u8>), _>(ErrorKind::UnexpectedEndOfInput),
            Tson::MAP(entries) => parse_entries(
                encode_payload(value).take(k),
                entries.len(),
                Seq::empty(),
            ) == Err::<(Seq<(Seq<char>, Tson)>, Seq<u8>), _>(ErrorKind::UnexpectedEndOfInput),
            Tson::NUM(kind, xs) => parse_elems(kind, encode_payload(value).take(k), xs.len())
                is None,
            Tson::LSTSTR(bytes) => parse_packed(encode_payload(value).take(k), bytes.len())
                == Err::<(), _>(ErrorKind::UnexpectedEndOfInput),
            _ => true,
        },
    decreases value, 0nat,
{
    match value {
        Tson::LST(items) => {
            lemma_cut_items(items, k, Seq::empty());
        },
        Tson::MAP(entries) => {
            lemma_cut_entries(entries, k, Seq::empty());
        },
        Tson::NUM(kind, xs) => {
            lemma_cut_elems(kind, xs, k);
        },
        Tson::LSTSTR(bytes) => {
            lemma_cut_packed(bytes, bytes.len(), k);
        },
        _ => {},
    }
}

/// The items of a list, cut short, end too early.
#[verifier::rlimit(50)]
pub proof fn lemma_cut_items(items: Seq<Tson>, k: int, got: Seq<Tson>)
    requires
        forall|i: int| 0 <= i < items.len() ==> (#[trigger] items[i]).wf(),
        0 <= k < encode_items(items).len(),
    ensures
        parse_items(encode_items(items).take(k), items.len(), got) == Err::<
            (Seq<Tson>, Seq<u8>),
            _,
        >(ErrorKind::UnexpectedEndOfInput),
    decreases items, 0nat,
{
    if items.len() > 0 {
        let first = encode_object(items[0]);
        let rest = items.drop_first();
        let cut = encode_items(items).take(k);
        lemma_take_concat(first, encode_items(rest), k);
        lemma_encode_object_len(items[0]);
        if k < first.len() {
            lemma_cut_object(items[0], k);
        } else {
            let tail = encode_items(rest).take(k - first.len());
            lemma_parse_encode_object(items[0], tail);
            assert forall|i: int| 0 <= i < rest.len() implies (#[trigger] rest[i]).wf() by {
                assert(rest[i] == items[i + 1]);
            }
            lemma_cut_items(rest, k - first.len(), got.push(items[0]));
        }
    }
}

/// The entries of a map, cut short, end too early.
#[verifier::rlimit(50)]
pub proof fn lemma_cut_entries(
    entries: Seq<(Seq<char>, Tson)>,
    k: int,
    got: Seq<(Seq<char>, Tson)>,
)
    requires
        forall|i: int|
            0 <= i < entries.len() ==> plain((#[trigger] entries[i]).0) && entries[i].1.wf(),
        0 <= k < encode_entries(entries).len(),
    ensures
        parse_entries(encode_entries(entries).take(k), entries.len(), got) == Err::<
            (Seq<(Seq<char>, Tson)>, Seq<u8>),
            _,
        >(ErrorKind::UnexpectedEndOfInput),
    decreases entries, 0nat,
{
    if entries.len() > 0 {
        let key = entries[0].0;
        let value = entries[0].1;
        let name = encode_string(key);
        let object = encode_object(value);
        let rest = entries.drop_first();
        let more = encode_entries(rest);
        let cut = encode_entries(entries).take(k);
        assert(encode_entry(entries[0]) == name + object);
        assert(encode_entries(entries) =~= name + (object + more));
        lemma_take_concat(name, object + more, k);
        lemma_encode_object_len(value);
        if k < name.len() {
            lemma_cut_string(key, k);
        } else {
            let after_key = (object + more).take(k - name.len());
            lemma_parse_encode_string(key, after_key);
            lemma_take_concat(object, more, k - name.len());
            if k - name.len() < object.len() {
                lemma_cut_object(value, k - name.len());
            } else {
                let tail = more.take(k - name.len() - object.len());
                lemma_parse_encode_object(value, tail);
                assert forall|i: int| 0 <= i < rest.len() implies plain((#[trigger] rest[i]).0)
                    && rest[i].1.wf() by {
                    assert(rest[i] == entries[i + 1]);
                }
                lemma_cut_entries(rest, k - name.len() - object.len(), upsert(got, key, value));
            }
        }
    }
}

/// Truncation: every proper prefix of the stream of a well-formed value is
/// refused as ending too early.
pub proof fn lemma_truncated(value: Tson, k: int)
    requires
        value.wf(),
        0 <= k < encode(value).len(),
    ensures
        parse(encode(value).take(k)) == Err::<(Tson, Seq<u8>), _>(
            ErrorKind::UnexpectedEndOfInput,
        ),
{
    lemma_version_plain();
    lemma_take_concat(header(), encode_object(value), k);
    if k < header().len() {
        lemma_cut_string(VERSION@, k);
    } else {
        let tail = encode_object(value).take(k - header().len());
        lemma_parse_encode_string(VERSION@, tail);
        lemma_cut_object(value, k - header().len());
    }
}

/// Another version: a stream that opens with another text than the version
/// token is refused as a version mismatch, whatever follows.
pub proof fn lemma_other_version(text: Seq<char>, rest: Seq<u8>)
    requires
        plain(text),
        text != VERSION@,
    ensures
        parse(encode_string(text) + rest) == Err::<(Tson, Seq<u8>), _>(
            ErrorKind::VersionMismatch,
        ),
{
    lemma_parse_encode_string(text, rest);
}

} // verus!
