//! A list of strings held as one buffer: each string's UTF-8 bytes and a NUL byte,
//! one after the other.

use vstd::prelude::*;
use vstd::std_specs::convert::{FromSpecImpl, TryFromSpecImpl};
use crate::deser::{Reader, SliceReader};
use crate::elem::ints;
use crate::error::{ErrorKind, TsonError, TsonResult};
use crate::text::{cstring, nul_free, parse_text, past_text, plain, span, lemma_parse_text_cstring,
    lemma_parse_text_ok, lemma_span, lemma_span_is, lemma_span_with_tail};

verus! {

/// The buffer of a string list. Any bytes can be put in it; `well_packed` says
/// which buffers hold strings and nothing else.
#[derive(Debug, PartialEq, Clone)]
pub struct StrVec {
    pub bytes: Vec<u8>,
}

impl View for StrVec {
    type V = Seq<u8>;

    open spec fn view(&self) -> Seq<u8> {
        self.bytes@
    }
}

/// The texts of a sequence of strings.
pub open spec fn texts_of(strings: Seq<String>) -> Seq<Seq<char>> {
    Seq::new(strings.len(), |i: int| strings[i]@)
}

/// The buffer that holds `texts`: each text's bytes and its NUL, in order.
pub open spec fn pack(texts: Seq<Seq<char>>) -> Seq<u8>
    decreases texts.len(),
{
    if texts.len() == 0 {
        Seq::empty()
    } else {
        cstring(texts[0]) + pack(texts.drop_first())
    }
}

/// The texts that a buffer holds, read one text field after the other until the
/// buffer is used up; the error of the first field that cannot be read.
pub open spec fn unpack(bytes: Seq<u8>) -> Result<Seq<Seq<char>>, ErrorKind>
    decreases bytes.len(),
{
    if bytes.len() == 0 {
        Ok(Seq::empty())
    } else if span(bytes) >= bytes.len() {
        Err(ErrorKind::UnexpectedEndOfInput)
    } else {
        match parse_text(bytes) {
            Ok((text, _)) => match unpack(past_text(bytes)) {
                Ok(texts) => Ok(seq![text] + texts),
                Err(kind) => Err(kind),
            },
            Err(kind) => Err(kind),
        }
    }
}

/// Whether `bytes` are text fields that end exactly after `len` bytes: the test
/// that a string list's declared byte length is held to.
pub open spec fn parse_packed(bytes: Seq<u8>, len: nat) -> Result<(), ErrorKind>
    decreases len,
{
    if len == 0 {
        Ok(())
    } else {
        match parse_text(bytes) {
            Ok(_) => if span(bytes) + 1 > len {
                Err(ErrorKind::DeclaredLengthMismatch)
            } else {
                parse_packed(past_text(bytes), (len - (span(bytes) + 1)) as nat)
            },
            Err(kind) => Err(kind),
        }
    }
}

/// Whether a buffer is a well-formed string list: text fields and nothing else.
pub open spec fn well_packed(bytes: Seq<u8>) -> bool {
    parse_packed(bytes, bytes.len()) is Ok
}

/// The index at which each string starts and the index at which the last one
/// ends, taking the first `n` bytes of the buffer into account: 0, and the index
/// after each NUL byte.
pub open spec fn starts_upto(bytes: Seq<u8>, n: nat) -> Seq<int>
    decreases n,
{
    if n == 0 {
        seq![0]
    } else if n <= bytes.len() && bytes[n - 1] == 0 {
        starts_upto(bytes, (n - 1) as nat).push(n as int)
    } else {
        starts_upto(bytes, (n - 1) as nat)
    }
}

/// The start offsets of a whole buffer.
pub open spec fn starts(bytes: Seq<u8>) -> Seq<int> {
    starts_upto(bytes, bytes.len())
}

/// Whether a buffer is empty or ends in a NUL byte, so that every string in it
/// is closed.
pub open spec fn closed(bytes: Seq<u8>) -> bool {
    bytes.len() == 0 || bytes.last() == 0
}

/// The index after the string that starts at `from`: after its NUL byte, or the
/// end of the buffer where no NUL byte follows.
pub open spec fn unit_end(bytes: Seq<u8>, from: nat) -> nat {
    let n = from + span(bytes.skip(from as int));
    if n < bytes.len() {
        n + 1
    } else {
        bytes.len()
    }
}

/// Bytes without a NUL add no start offset.
pub proof fn lemma_starts_skip(bytes: Seq<u8>, from: nat, to: nat)
    requires
        from <= to <= bytes.len(),
        forall|i: int| from <= i < to ==> bytes[i] != 0,
    ensures
        starts_upto(bytes, to) == starts_upto(bytes, from),
    decreases to - from,
{
    if from < to {
        lemma_starts_skip(bytes, from, (to - 1) as nat);
    }
}

/// The result `p` of unpacking, with `texts` put before the texts unpacked.
pub open spec fn prepend_texts(
    texts: Seq<Seq<char>>,
    p: Result<Seq<Seq<char>>, ErrorKind>,
) -> Result<Seq<Seq<char>>, ErrorKind> {
    match p {
        Ok(more) => Ok(texts + more),
        Err(kind) => Err(kind),
    }
}

pub proof fn lemma_pack_concat(a: Seq<Seq<char>>, b: Seq<Seq<char>>)
    ensures
        pack(a + b) == pack(a) + pack(b),
    decreases a.len(),
{
    if a.len() == 0 {
        assert(a + b =~= b);
        assert(pack(a) + pack(b) =~= pack(b));
    } else {
        assert((a + b).drop_first() =~= a.drop_first() + b);
        lemma_pack_concat(a.drop_first(), b);
        assert(pack(a + b) =~= pack(a) + pack(b));
    }
}

pub proof fn lemma_pack_push(texts: Seq<Seq<char>>, text: Seq<char>)
    ensures
        pack(texts.push(text)) == pack(texts) + cstring(text),
{
    lemma_pack_concat(texts, seq![text]);
    assert(texts.push(text) =~= texts + seq![text]);
    assert(seq![text].drop_first() =~= Seq::<Seq<char>>::empty());
    assert(pack(seq![text]) =~= cstring(text)) by {
        reveal_with_fuel(pack, 2);
    }
}

/// Packed plain texts unpack to themselves.
pub proof fn lemma_unpack_pack(texts: Seq<Seq<char>>)
    requires
        forall|i: int| 0 <= i < texts.len() ==> plain(#[trigger] texts[i]),
    ensures
        unpack(pack(texts)) == Ok::<_, ErrorKind>(texts),
    decreases texts.len(),
{
    if texts.len() > 0 {
        let rest = texts.drop_first();
        let all = pack(texts);
        assert(all.len() > 0);
        lemma_parse_text_cstring(texts[0], pack(rest));
        lemma_parse_text_ok(all);
        assert(past_text(all) == pack(rest));
        assert forall|i: int| 0 <= i < rest.len() implies plain(#[trigger] rest[i]) by {
            assert(rest[i] == texts[i + 1]);
        }
        lemma_unpack_pack(rest);
        assert(seq![texts[0]] + rest =~= texts);
    } else {
        assert(texts =~= Seq::empty());
    }
}

/// What unpacks is the packing of its texts, and is well packed.
pub proof fn lemma_pack_unpack(bytes: Seq<u8>)
    requires
        unpack(bytes) is Ok,
    ensures
        pack(unpack(bytes)->Ok_0) == bytes,
        well_packed(bytes),
        closed(bytes),
    decreases bytes.len(),
{
    if bytes.len() > 0 {
        let rest = past_text(bytes);
        lemma_parse_text_ok(bytes);
        lemma_pack_unpack(rest);
        let texts = unpack(bytes)->Ok_0;
        assert(texts.drop_first() =~= unpack(rest)->Ok_0);
        if rest.len() > 0 {
            assert(rest.last() == bytes.last());
        } else {
            lemma_span(bytes);
        }
    }
}

/// Text fields that end after `len` bytes are at least `len` bytes.
pub proof fn lemma_parse_packed_len(bytes: Seq<u8>, len: nat)
    requires
        parse_packed(bytes, len) is Ok,
    ensures
        len <= bytes.len(),
        len > 0 ==> bytes[len - 1] == 0,
    decreases len,
{
    if len > 0 {
        let used = span(bytes) + 1;
        lemma_span(bytes);
        lemma_parse_packed_len(past_text(bytes), (len - used) as nat);
        if len > used {
            assert(past_text(bytes)[len - used - 1] == bytes[len - 1]);
        }
    }
}

/// Text fields that end after `len` bytes are a well-packed buffer of `len`
/// bytes.
pub proof fn lemma_parse_packed_take(bytes: Seq<u8>, len: nat)
    requires
        parse_packed(bytes, len) is Ok,
    ensures
        len <= bytes.len(),
        well_packed(bytes.take(len as int)),
    decreases len,
{
    lemma_parse_packed_len(bytes, len);
    if len > 0 {
        let n = span(bytes) as int;
        let used = (n + 1) as nat;
        let head = bytes.take(len as int);
        lemma_span(bytes);
        assert(head.take(n) =~= bytes.take(n));
        assert(head[n] == 0);
        lemma_span_is(head, n);
        lemma_parse_packed_take(past_text(bytes), (len - used) as nat);
        assert(past_text(head) =~= past_text(bytes).take(len - used));
    }
}

/// A well-packed buffer is still read to its end where more bytes follow it.
pub proof fn lemma_parse_packed_with_tail(bytes: Seq<u8>, len: nat, tail: Seq<u8>)
    requires
        len <= bytes.len(),
        parse_packed(bytes, len) is Ok,
    ensures
        parse_packed(bytes + tail, len) is Ok,
    decreases len,
{
    if len > 0 {
        let n = span(bytes) as int;
        lemma_span_with_tail(bytes, tail);
        assert((bytes + tail).take(n) =~= bytes.take(n));
        assert((bytes + tail).skip(n + 1) =~= bytes.skip(n + 1) + tail);
        lemma_parse_packed_with_tail(bytes.skip(n + 1), (len - (n + 1)) as nat, tail);
    }
}

/// Reads one text field from `reader`.
pub fn read_string<R: Reader>(reader: &mut R) -> (r: TsonResult<String>)
    ensures
        crate::deser::reads_text(
            old(reader).remaining(),
            match r {
                Ok(s) => Ok(s@),
                Err(e) => Err(e),
            },
            final(reader).remaining(),
        ),
{
    reader.read_string()
}

/// Reads up to and past the next NUL byte of `reader`, and gives the number of
/// bytes before it.
pub fn read_string_len<R: Reader>(reader: &mut R) -> (r: TsonResult<usize>)
    requires
        old(reader).remaining().len() <= usize::MAX,
    ensures
        match r {
            Ok(n) => n == span(old(reader).remaining()) && n < old(reader).remaining().len()
                && final(reader).remaining() == old(reader).remaining().skip(n + 1),
            Err(e) => span(old(reader).remaining()) == old(reader).remaining().len() && e.kind
                == ErrorKind::UnexpectedEndOfInput,
        },
{
    let ghost before = reader.remaining();
    let mut done = false;
    let mut len: usize = 0;
    while !done
        invariant
            before == old(reader).remaining(),
            before.len() <= usize::MAX,
            len <= before.len(),
            nul_free(before.take(len as int)),
            !done ==> reader.remaining() == before.skip(len as int),
            done ==> len < before.len() && before[len as int] == 0 && reader.remaining()
                == before.skip(len + 1),
        decreases reader.remaining().len() + (if done { 0nat } else { 1nat }),
    {
        let byte = match reader.read_u8() {
            Ok(byte) => byte,
            Err(e) => {
                proof {
                    lemma_span_is(before, len as int);
                }
                return Err(e);
            },
        };
        if byte == 0 {
            done = true;
            assert(reader.remaining() =~= before.skip(len + 1));
        } else {
            assert(before.take(len + 1) =~= before.take(len as int).push(byte));
            len += 1;
            assert(reader.remaining() =~= before.skip(len as int));
        }
    }
    proof {
        lemma_span_is(before, len as int);
    }
    Ok(len)
}

impl StrVec {
    /// The index after the string that starts at `from`.
    pub fn string_end(&self, from: usize) -> (end: usize)
        requires
            from < self@.len(),
        ensures
            end == unit_end(self@, from as nat),
            from < end <= self@.len(),
    {
        let ghost rest = self@.skip(from as int);
        let mut i: usize = from;
        while i < self.bytes.len() && self.bytes[i] != 0
            invariant
                rest == self@.skip(from as int),
                from <= i <= self@.len(),
                nul_free(rest.take(i - from)),
            decreases self@.len() - i,
        {
            assert(rest.take(i + 1 - from) =~= rest.take(i - from).push(self@[i as int]));
            i += 1;
        }
        proof {
            if i < self@.len() {
                assert(rest[i - from] == self@[i as int]);
            }
            lemma_span_is(rest, i - from);
        }
        if i < self.bytes.len() {
            i + 1
        } else {
            i
        }
    }

    pub fn from_bytes(bytes: Vec<u8>) -> (r: Self)
        ensures
            r.bytes == bytes,
    {
        StrVec { bytes }
    }

    /// The buffer that holds the given strings.
    pub fn from_strings(strings: &Vec<String>) -> (r: Self)
        ensures
            r@ == pack(texts_of(strings@)),
    {
        let mut bytes: Vec<u8> = Vec::new();
        let mut i: usize = 0;
        while i < strings.len()
            invariant
                i <= strings.len(),
                bytes@ == pack(texts_of(strings@).take(i as int)),
            decreases strings.len() - i,
        {
            let e = strings[i].as_str().as_bytes();
            let ghost held = bytes@;
            let mut j: usize = 0;
            while j < e.len()
                invariant
                    j <= e.len(),
                    bytes@ == held + e@.take(j as int),
                decreases e.len() - j,
            {
                bytes.push(e[j]);
                j += 1;
                assert(bytes@ =~= held + e@.take(j as int));
            }
            bytes.push(0);
            proof {
                let texts = texts_of(strings@);
                assert(e@.take(e.len() as int) =~= e@);
                assert(bytes@ =~= held + cstring(texts[i as int]));
                lemma_pack_push(texts.take(i as int), texts[i as int]);
                assert(texts.take(i + 1) =~= texts.take(i as int).push(texts[i as int]));
            }
            i += 1;
        }
        assert(texts_of(strings@).take(strings.len() as int) =~= texts_of(strings@));
        StrVec { bytes }
    }

    /// The offset at which each string starts, and the offset at which the last
    /// one ends. Fails where the last string is not closed by a NUL byte.
    pub fn build_starts(&self) -> (r: TsonResult<Vec<usize>>)
        ensures
            match r {
                Ok(v) => closed(self@) && ints(v@) == starts(self@),
                Err(e) => !closed(self@) && e.kind == ErrorKind::UnexpectedEndOfInput,
            },
    {
        let mut reader = SliceReader::new(self.bytes.as_slice());
        let mut len_in_bytes = self.bytes.len();
        let mut vec: Vec<usize> = Vec::with_capacity(len_in_bytes);
        let mut start: usize = 0;
        vec.push(start);
        assert(ints(vec@) =~= starts_upto(self@, 0));
        while len_in_bytes > 0
            invariant
                self@.len() <= usize::MAX,
                start + len_in_bytes == self@.len(),
                reader.remaining() == self@.skip(start as int),
                ints(vec@) == starts_upto(self@, start as nat),
                start == 0 || self@[start - 1] == 0,
            decreases len_in_bytes,
        {
            let ghost rest = reader.remaining();
            proof {
                lemma_span(rest);
            }
            let len = match read_string_len(&mut reader) {
                Ok(len) => len,
                Err(e) => {
                    assert(rest.take(rest.len() as int) =~= rest);
                    assert(self@.last() == rest[rest.len() - 1]);
                    return Err(e);
                },
            };
            proof {
                let end = (start + len) as nat;
                assert forall|i: int| start <= i < end implies self@[i] != 0 by {
                    assert(rest.take(len as int)[i - start] == self@[i]);
                }
                lemma_starts_skip(self@, start as nat, end);
                assert(self@[end as int] == rest[len as int]);
                assert(reader.remaining() =~= self@.skip(start + len + 1));
            }
            start += len + 1;
            vec.push(start);
            len_in_bytes -= len + 1;
            assert(ints(vec@) =~= starts_upto(self@, start as nat));
        }
        Ok(vec)
    }

    /// The strings of the buffer. Fails where a string is not UTF-8 or the last
    /// one is not closed by a NUL byte.
    pub fn try_to_vec(&self) -> (r: TsonResult<Vec<String>>)
        ensures
            match r {
                Ok(v) => unpack(self@) == Ok::<_, ErrorKind>(texts_of(v@)),
                Err(e) => unpack(self@) == Err::<Seq<Seq<char>>, _>(e.kind),
            },
    {
        let mut reader = SliceReader::new(self.bytes.as_slice());
        let mut len_in_bytes = self.bytes.len();
        let mut vec: Vec<String> = Vec::new();
        assert(texts_of(vec@) + Seq::<Seq<char>>::empty() =~= texts_of(vec@));
        while len_in_bytes > 0
            invariant
                len_in_bytes == reader.remaining().len(),
                unpack(self@) == prepend_texts(texts_of(vec@), unpack(reader.remaining())),
            decreases len_in_bytes,
        {
            let ghost rest = reader.remaining();
            let ghost got = texts_of(vec@);
            let v = match read_string(&mut reader) {
                Ok(v) => v,
                Err(e) => {
                    return Err(e);
                },
            };
            proof {
                lemma_parse_text_ok(rest);
                match unpack(reader.remaining()) {
                    Ok(more) => {
                        assert(got + (seq![v@] + more) =~= got.push(v@) + more);
                    },
                    Err(_) => {},
                }
            }
            len_in_bytes -= v.as_str().as_bytes().len() + 1;
            vec.push(v);
            assert(texts_of(vec@) =~= got.push(v@));
        }
        assert(texts_of(vec@) + Seq::<Seq<char>>::empty() =~= texts_of(vec@));
        Ok(vec)
    }
}

impl TryFrom<StrVec> for Vec<String> {
    type Error = TsonError;

    /// The strings of the buffer, as `try_to_vec` gives them.
    fn try_from(list: StrVec) -> (r: TsonResult<Vec<String>>)
        ensures
            match r {
                Ok(v) => unpack(list@) == Ok::<_, ErrorKind>(texts_of(v@)),
                Err(e) => unpack(list@) == Err::<Seq<Seq<char>>, _>(e.kind),
            },
    {
        list.try_to_vec()
    }
}

impl TryFromSpecImpl<StrVec> for Vec<String> {
    open spec fn obeys_try_from_spec() -> bool {
        false
    }

    open spec fn try_from_spec(list: StrVec) -> Result<Vec<String>, TsonError> {
        arbitrary()
    }
}

impl From<Vec<String>> for StrVec {
    fn from(strings: Vec<String>) -> (r: StrVec)
        ensures
            r@ == pack(texts_of(strings@)),
    {
        StrVec::from_strings(&strings)
    }
}

impl FromSpecImpl<Vec<String>> for StrVec {
    open spec fn obeys_from_spec() -> bool {
        false
    }

    open spec fn from_spec(strings: Vec<String>) -> StrVec {
        arbitrary()
    }
}

} // verus!
