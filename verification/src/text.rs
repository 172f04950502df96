//! Text on the wire: UTF-8 bytes closed by a NUL byte.

use vstd::prelude::*;
use vstd::utf8::{char_is_scalar, decode_utf8, encode_scalar, encode_utf8, valid_utf8,
    encode_utf8_valid_utf8, encode_utf8_decode_utf8, decode_utf8_encode_utf8};
use crate::error::ErrorKind;

verus! {

/// Whether no byte of `bytes` is NUL.
pub open spec fn nul_free(bytes: Seq<u8>) -> bool {
    forall|i: int| 0 <= i < bytes.len() ==> bytes[i] != 0
}

/// The number of bytes before the first NUL byte, or the length where there is
/// none.
pub open spec fn span(bytes: Seq<u8>) -> nat
    decreases bytes.len(),
{
    if bytes.len() == 0 || bytes[0] == 0 {
        0
    } else {
        1 + span(bytes.drop_first())
    }
}

/// The bytes of a text field: its UTF-8 encoding and the closing NUL.
pub open spec fn cstring(text: Seq<char>) -> Seq<u8> {
    encode_utf8(text).push(0)
}

/// Whether a text can be told from what follows it: its encoding holds no NUL.
pub open spec fn plain(text: Seq<char>) -> bool {
    nul_free(encode_utf8(text))
}

/// The bytes after the first NUL byte.
pub open spec fn past_text(bytes: Seq<u8>) -> Seq<u8> {
    bytes.skip(span(bytes) as int + 1)
}

/// Reads one text field from the front of `bytes`: the text and the bytes after
/// its NUL. Input without a NUL ends too early; bytes before the NUL that are not
/// UTF-8 are a malformed string.
pub open spec fn parse_text(bytes: Seq<u8>) -> Result<(Seq<char>, Seq<u8>), ErrorKind> {
    let n = span(bytes) as int;
    if n >= bytes.len() {
        Err(ErrorKind::UnexpectedEndOfInput)
    } else if !valid_utf8(bytes.take(n)) {
        Err(ErrorKind::MalformedString)
    } else {
        Ok((decode_utf8(bytes.take(n)), past_text(bytes)))
    }
}

/// `span` stops at the first NUL byte and nowhere before.
pub proof fn lemma_span(bytes: Seq<u8>)
    ensures
        span(bytes) <= bytes.len(),
        nul_free(bytes.take(span(bytes) as int)),
        span(bytes) < bytes.len() ==> bytes[span(bytes) as int] == 0,
    decreases bytes.len(),
{
    if bytes.len() == 0 || bytes[0] == 0 {
    } else {
        let rest = bytes.drop_first();
        lemma_span(rest);
        let n = span(bytes) as int;
        assert forall|i: int| 0 <= i < n implies bytes.take(n)[i] != 0 by {
            if i > 0 {
                assert(rest.take(n - 1)[i - 1] == bytes[i]);
            }
        }
    }
}

/// A position after NUL-free bytes, at a NUL byte or at the end, is the span.
pub proof fn lemma_span_is(bytes: Seq<u8>, n: int)
    requires
        0 <= n <= bytes.len(),
        nul_free(bytes.take(n)),
        n < bytes.len() ==> bytes[n] == 0,
    ensures
        span(bytes) == n,
    decreases bytes.len(),
{
    if n > 0 {
        assert(bytes.take(n)[0] == bytes[0]);
        let rest = bytes.drop_first();
        let head = rest.take(n - 1);
        assert forall|i: int| 0 <= i < head.len() implies head[i] != 0 by {
            assert(bytes.take(n)[i + 1] == head[i]);
        }
        lemma_span_is(rest, n - 1);
    }
}

/// A NUL-free prefix followed by a NUL has the prefix's length as its span.
pub proof fn lemma_span_of_prefix(prefix: Seq<u8>, tail: Seq<u8>)
    requires
        nul_free(prefix),
    ensures
        span(prefix.push(0) + tail) == prefix.len(),
        (prefix.push(0) + tail).take(prefix.len() as int) == prefix,
        (prefix.push(0) + tail).skip(prefix.len() as int + 1) == tail,
    decreases prefix.len(),
{
    let all = prefix.push(0) + tail;
    assert(all.take(prefix.len() as int) =~= prefix);
    assert(all.skip(prefix.len() as int + 1) =~= tail);
    if prefix.len() > 0 {
        assert(all[0] == prefix[0]);
        assert(all.drop_first() =~= prefix.drop_first().push(0) + tail);
        assert(nul_free(prefix.drop_first())) by {
            assert forall|i: int| 0 <= i < prefix.drop_first().len() implies prefix.drop_first()[i]
                != 0 by {
                assert(prefix.drop_first()[i] == prefix[i + 1]);
            }
        }
        lemma_span_of_prefix(prefix.drop_first(), tail);
    } else {
        assert(all[0] == 0);
    }
}

/// Where the span ends inside `bytes`, appending a tail does not move it.
pub proof fn lemma_span_with_tail(bytes: Seq<u8>, tail: Seq<u8>)
    requires
        span(bytes) < bytes.len(),
    ensures
        span(bytes + tail) == span(bytes),
    decreases bytes.len(),
{
    let all = bytes + tail;
    assert(all[0] == bytes[0]);
    if bytes[0] != 0 {
        assert(all.drop_first() =~= bytes.drop_first() + tail);
        lemma_span_with_tail(bytes.drop_first(), tail);
    }
}

/// A plain text, whatever follows it, is read back as it was.
pub proof fn lemma_parse_text_cstring(text: Seq<char>, tail: Seq<u8>)
    requires
        plain(text),
    ensures
        parse_text(cstring(text) + tail) == Ok::<_, ErrorKind>((text, tail)),
{
    lemma_span_of_prefix(encode_utf8(text), tail);
    encode_utf8_valid_utf8(text);
    encode_utf8_decode_utf8(text);
}

/// What `parse_text` accepts is the encoding of the text it returns.
pub proof fn lemma_parse_text_ok(bytes: Seq<u8>)
    requires
        parse_text(bytes) is Ok,
    ensures
        plain(parse_text(bytes)->Ok_0.0),
        bytes == cstring(parse_text(bytes)->Ok_0.0) + parse_text(bytes)->Ok_0.1,
        cstring(parse_text(bytes)->Ok_0.0).len() == span(bytes) + 1,
{
    let n = span(bytes) as int;
    lemma_span(bytes);
    decode_utf8_encode_utf8(bytes.take(n));
    assert(bytes =~= bytes.take(n).push(0) + bytes.skip(n + 1));
}

/// Two NUL-free byte strings in a row are NUL-free, and only such.
pub proof fn lemma_nul_free_concat(a: Seq<u8>, b: Seq<u8>)
    ensures
        nul_free(a + b) <==> nul_free(a) && nul_free(b),
{
    if nul_free(a + b) {
        assert forall|i: int| 0 <= i < a.len() implies a[i] != 0 by {
            assert((a + b)[i] == a[i]);
        }
        assert forall|i: int| 0 <= i < b.len() implies b[i] != 0 by {
            assert((a + b)[a.len() + i] == b[i]);
        }
    }
}

/// The encoding of a character holds a NUL byte only where the character is NUL.
pub proof fn lemma_scalar_nul(c: char)
    ensures
        nul_free(encode_scalar(c as u32)) <==> c != '\0',
{
    let v = c as u32;
    char_is_scalar(c);
    assert(v <= 0x7F ==> ((v & 0x7F) as u8 == 0 <==> v == 0)) by (bit_vector);
    assert((0xC0u8 | ((v >> 6) & 0x1F) as u8) != 0) by (bit_vector);
    assert((0xE0u8 | ((v >> 12) & 0x0F) as u8) != 0) by (bit_vector);
    assert((0xF0u8 | ((v >> 18) & 0x7) as u8) != 0) by (bit_vector);
    assert((0x80u8 | (v & 0x3F) as u8) != 0) by (bit_vector);
    assert((0x80u8 | ((v >> 6) & 0x3F) as u8) != 0) by (bit_vector);
    assert((0x80u8 | ((v >> 12) & 0x3F) as u8) != 0) by (bit_vector);
    let bytes = encode_scalar(v);
    if c == '\0' {
        assert(bytes[0] == 0);
    }
}

/// A text is plain exactly where none of its characters is NUL.
pub proof fn lemma_plain(text: Seq<char>)
    ensures
        plain(text) <==> forall|i: int| 0 <= i < text.len() ==> text[i] != '\0',
    decreases text.len(),
{
    if text.len() > 0 {
        let rest = text.drop_first();
        lemma_scalar_nul(text[0]);
        lemma_plain(rest);
        lemma_nul_free_concat(encode_scalar(text[0] as u32), encode_utf8(rest));
        if plain(text) {
            assert forall|i: int| 0 <= i < text.len() implies text[i] != '\0' by {
                if i > 0 {
                    assert(rest[i - 1] == text[i]);
                }
            }
        } else {
            if forall|i: int| 0 <= i < text.len() ==> text[i] != '\0' {
                assert forall|i: int| 0 <= i < rest.len() implies rest[i] != '\0' by {
                    assert(rest[i] == text[i + 1]);
                }
            }
        }
    }
}

/// `String::from_utf8` accepts exactly the valid UTF-8 byte strings, and the
/// string it makes of one has the characters that the bytes encode.
#[verifier::external_body]
pub(crate) fn string_from_utf8(bytes: Vec<u8>) -> (r: Option<String>)
    ensures
        r is Some <==> valid_utf8(bytes@),
        r is Some ==> r->0@ == decode_utf8(bytes@),
{
    String::from_utf8(bytes).ok()
}

} // verus!
