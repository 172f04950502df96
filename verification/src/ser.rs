//! Byte sinks and the encoder that writes one whole value to a sink.

use bytes::BufMut;
use vstd::prelude::*;
use crate::elem::{Elem, encode_elems, ints, lemma_encode_elems_range, lemma_encode_elems_same,
    lemma_u8_bytes};
use crate::error::{ErrorKind, TsonError, TsonResult};
use crate::le::{le_bytes, twos, lemma_le_bytes_len};
use crate::tags::{BOOL_TYPE, DOUBLE_TYPE, INTEGER_TYPE, LIST_FLOAT32_TYPE, LIST_FLOAT64_TYPE,
    LIST_INT16_TYPE, LIST_INT32_TYPE, LIST_INT64_TYPE, LIST_INT8_TYPE, LIST_STRING_TYPE, LIST_TYPE,
    LIST_UINT16_TYPE, LIST_UINT32_TYPE, LIST_UINT64_TYPE, LIST_UINT8_TYPE, MAP_TYPE,
    MAX_LIST_LENGTH, NULL_TYPE, STRING_TYPE, VERSION};
use crate::text::cstring;
use crate::value::{Value, entries_of, views_of, lemma_entries_of, lemma_views_of};
use crate::wire::{encode, encode_entries, encode_entry, encode_head, encode_items, encode_object,
    encode_string, header, len_field, tag_of, lemma_encode_entries_split, lemma_encode_items_split,
    lemma_encode_object_len};

verus! {

/// `bytes::BufMut::put_u8` on a vector appends the byte.
#[verifier::external_body]
pub(crate) fn put_u8(buf: &mut Vec<u8>, value: u8)
    ensures
        final(buf)@ == old(buf)@ + le_bytes(value as nat, 1),
{
    BufMut::put_u8(buf, value)
}

/// `bytes::BufMut::put_i8` on a vector appends the byte that is the two's
/// complement of the number.
#[verifier::external_body]
pub(crate) fn put_i8(buf: &mut Vec<u8>, value: i8)
    ensures
        final(buf)@ == old(buf)@ + le_bytes(twos(value as int, 1), 1),
{
    BufMut::put_i8(buf, value)
}

/// `bytes::BufMut::put_u16_le` on a vector appends the two bytes of the number,
/// lowest first.
#[verifier::external_body]
pub(crate) fn put_u16_le(buf: &mut Vec<u8>, value: u16)
    ensures
        final(buf)@ == old(buf)@ + le_bytes(value as nat, 2),
{
    BufMut::put_u16_le(buf, value)
}

/// `bytes::BufMut::put_i16_le` on a vector appends the two bytes of the number's
/// two's complement, lowest first.
#[verifier::external_body]
pub(crate) fn put_i16_le(buf: &mut Vec<u8>, value: i16)
    ensures
        final(buf)@ == old(buf)@ + le_bytes(twos(value as int, 2), 2),
{
    BufMut::put_i16_le(buf, value)
}

/// `bytes::BufMut::put_u32_le` on a vector appends the four bytes of the number,
/// lowest first.
#[verifier::external_body]
pub(crate) fn put_u32_le(buf: &mut Vec<u8>, value: u32)
    ensures
        final(buf)@ == old(buf)@ + le_bytes(value as nat, 4),
{
    BufMut::put_u32_le(buf, value)
}

/// `bytes::BufMut::put_i32_le` on a vector appends the four bytes of the number's
/// two's complement, lowest first.
#[verifier::external_body]
pub(crate) fn put_i32_le(buf: &mut Vec<u8>, value: i32)
    ensures
        final(buf)@ == old(buf)@ + le_bytes(twos(value as int, 4), 4),
{
    BufMut::put_i32_le(buf, value)
}

/// `bytes::BufMut::put_u64_le` on a vector appends the eight bytes of the number,
/// lowest first.
#[verifier::external_body]
pub(crate) fn put_u64_le(buf: &mut Vec<u8>, value: u64)
    ensures
        final(buf)@ == old(buf)@ + le_bytes(value as nat, 8),
{
    BufMut::put_u64_le(buf, value)
}

/// `bytes::BufMut::put_i64_le` on a vector appends the eight bytes of the
/// number's two's complement, lowest first.
#[verifier::external_body]
pub(crate) fn put_i64_le(buf: &mut Vec<u8>, value: i64)
    ensures
        final(buf)@ == old(buf)@ + le_bytes(twos(value as int, 8), 8),
{
    BufMut::put_i64_le(buf, value)
}

/// `bytes::BufMut::put_slice` on a vector appends the bytes of the slice.
#[verifier::external_body]
pub(crate) fn put_slice(buf: &mut Vec<u8>, src: &[u8])
    ensures
        final(buf)@ == old(buf)@ + src@,
{
    BufMut::put_slice(buf, src)
}

/// What a byte sink is to the encoder: the bytes written to it so far and, where
/// it is bounded, the number of bytes that it takes in all.
pub ghost struct Sink {
    pub written: Seq<u8>,
    pub limit: Option<nat>,
}

/// A byte sink. It takes a write whole where the bytes written stay within its
/// limit, and refuses it otherwise, and then stays as it was.
pub trait Writer {
    /// The bytes written so far, and the limit. A sink that gives no account of
    /// them leaves them unknown.
    open spec fn sink(&self) -> Sink {
        arbitrary()
    }

    fn add_u8(&mut self, value: u8) -> (r: TsonResult<()>)
        ensures
            wrote_whole(old(self).sink(), Elem::U8.bytes(value as int), r, final(self).sink()),
    ;

    fn add_i8(&mut self, value: i8) -> (r: TsonResult<()>)
        ensures
            wrote_whole(old(self).sink(), Elem::I8.bytes(value as int), r, final(self).sink()),
    ;

    fn add_u32(&mut self, value: u32) -> (r: TsonResult<()>)
        ensures
            wrote_whole(old(self).sink(), Elem::U32.bytes(value as int), r, final(self).sink()),
    ;

    fn add_i32(&mut self, value: i32) -> (r: TsonResult<()>)
        ensures
            wrote_whole(old(self).sink(), Elem::I32.bytes(value as int), r, final(self).sink()),
    ;

    /// Writes the bit pattern of an eight-byte IEEE-754 number.
    fn add_f64(&mut self, value: u64) -> (r: TsonResult<()>)
        ensures
            wrote_whole(old(self).sink(), Elem::F64.bytes(value as int), r, final(self).sink()),
    ;

    fn add_u16(&mut self, value: u16) -> (r: TsonResult<()>)
        ensures
            wrote_whole(old(self).sink(), Elem::U16.bytes(value as int), r, final(self).sink()),
    ;

    fn add_i16(&mut self, value: i16) -> (r: TsonResult<()>)
        ensures
            wrote_whole(old(self).sink(), Elem::I16.bytes(value as int), r, final(self).sink()),
    ;

    fn add_u64(&mut self, value: u64) -> (r: TsonResult<()>)
        ensures
            wrote_whole(old(self).sink(), Elem::U64.bytes(value as int), r, final(self).sink()),
    ;

    fn add_i64(&mut self, value: i64) -> (r: TsonResult<()>)
        ensures
            wrote_whole(old(self).sink(), Elem::I64.bytes(value as int), r, final(self).sink()),
    ;

    /// Writes the bit pattern of a four-byte IEEE-754 number.
    fn add_f32(&mut self, value: u32) -> (r: TsonResult<()>)
        ensures
            wrote_whole(old(self).sink(), Elem::F32.bytes(value as int), r, final(self).sink()),
    ;

    fn put_slice(&mut self, src: &[u8]) -> (r: TsonResult<()>)
        ensures
            wrote_whole(old(self).sink(), src@, r, final(self).sink()),
    ;
}

/// Whether the sink takes `count` more bytes. It takes no bytes at all in any
/// case.
pub open spec fn takes(sink: Sink, count: nat) -> bool {
    match sink.limit {
        Some(limit) => count == 0 || sink.written.len() + count <= limit,
        None => true,
    }
}

/// What writing `bytes` owes where the value written is one that `fits`: success
/// exactly where it fits and the sink takes the bytes, with the bytes appended;
/// otherwise the error `ValueTooLarge`.
pub open spec fn wrote_if(
    fits: bool,
    before: Sink,
    bytes: Seq<u8>,
    r: TsonResult<()>,
    after: Sink,
) -> bool {
    &&& after.limit == before.limit
    &&& match r {
        Ok(_) => fits && takes(before, bytes.len()) && after.written == before.written + bytes,
        Err(e) => (!fits || !takes(before, bytes.len())) && e.kind == ErrorKind::ValueTooLarge,
    }
}

/// What writing `bytes` owes: success exactly where the sink takes them, with the
/// bytes appended; otherwise the error `ValueTooLarge`.
pub open spec fn wrote(before: Sink, bytes: Seq<u8>, r: TsonResult<()>, after: Sink) -> bool {
    wrote_if(true, before, bytes, r, after)
}

/// What one write to a sink owes: what `wrote` says, and a sink that is as it was
/// where the write was refused.
pub open spec fn wrote_whole(before: Sink, bytes: Seq<u8>, r: TsonResult<()>, after: Sink) -> bool {
    wrote(before, bytes, r, after) && (r is Err ==> after == before)
}

/// A vector takes every write.
impl Writer for Vec<u8> {
    open spec fn sink(&self) -> Sink {
        Sink { written: self@, limit: None }
    }

    fn add_u8(&mut self, value: u8) -> (r: TsonResult<()>) {
        put_u8(self, value);
        Ok(())
    }

    fn add_i8(&mut self, value: i8) -> (r: TsonResult<()>) {
        put_i8(self, value);
        Ok(())
    }

    fn add_u32(&mut self, value: u32) -> (r: TsonResult<()>) {
        put_u32_le(self, value);
        Ok(())
    }

    fn add_i32(&mut self, value: i32) -> (r: TsonResult<()>) {
        put_i32_le(self, value);
        Ok(())
    }

    fn add_f64(&mut self, value: u64) -> (r: TsonResult<()>) {
        put_u64_le(self, value);
        Ok(())
    }

    fn add_u16(&mut self, value: u16) -> (r: TsonResult<()>) {
        put_u16_le(self, value);
        Ok(())
    }

    fn add_i16(&mut self, value: i16) -> (r: TsonResult<()>) {
        put_i16_le(self, value);
        Ok(())
    }

    fn add_u64(&mut self, value: u64) -> (r: TsonResult<()>) {
        put_u64_le(self, value);
        Ok(())
    }

    fn add_i64(&mut self, value: i64) -> (r: TsonResult<()>) {
        put_i64_le(self, value);
        Ok(())
    }

    fn add_f32(&mut self, value: u32) -> (r: TsonResult<()>) {
        put_u32_le(self, value);
        Ok(())
    }

    fn put_slice(&mut self, src: &[u8]) -> (r: TsonResult<()>) {
        put_slice(self, src);
        Ok(())
    }
}

/// A sink that counts the bytes it is given and keeps none. It refuses a write
/// that would take the count past `usize::MAX`.
pub struct CountWriter {
    pub size: usize,
    pub bytes: Ghost<Seq<u8>>,
}

impl CountWriter {
    pub fn new() -> (r: CountWriter)
        ensures
            r.size == 0,
            r.sink() == (Sink { written: Seq::empty(), limit: Some(usize::MAX as nat) }),
    {
        CountWriter { size: 0, bytes: Ghost(Seq::empty()) }
    }

    /// Counts `count` bytes.
    fn count(&mut self, count: usize, Ghost(bytes): Ghost<Seq<u8>>) -> (r: TsonResult<()>)
        requires
            bytes.len() == count,
        ensures
            wrote_whole(old(self).sink(), bytes, r, final(self).sink()),
            r is Ok ==> final(self).size == old(self).size + count,
    {
        if count > usize::MAX - self.size {
            Err(TsonError::of_kind(ErrorKind::ValueTooLarge))
        } else {
            self.size += count;
            self.bytes = Ghost(self.bytes@ + bytes);
            Ok(())
        }
    }
}

impl Writer for CountWriter {
    open spec fn sink(&self) -> Sink {
        Sink {
            written: self.bytes@,
            limit: Some((self.bytes@.len() + (usize::MAX - self.size)) as nat),
        }
    }

    fn add_u8(&mut self, value: u8) -> (r: TsonResult<()>) {
        proof {
            lemma_le_bytes_len(Elem::U8.code(value as int), 1);
        }
        self.count(1, Ghost(Elem::U8.bytes(value as int)))
    }

    fn add_i8(&mut self, value: i8) -> (r: TsonResult<()>) {
        proof {
            lemma_le_bytes_len(Elem::I8.code(value as int), 1);
        }
        self.count(1, Ghost(Elem::I8.bytes(value as int)))
    }

    fn add_u32(&mut self, value: u32) -> (r: TsonResult<()>) {
        proof {
            lemma_le_bytes_len(Elem::U32.code(value as int), 4);
        }
        self.count(4, Ghost(Elem::U32.bytes(value as int)))
    }

    fn add_i32(&mut self, value: i32) -> (r: TsonResult<()>) {
        proof {
            lemma_le_bytes_len(Elem::I32.code(value as int), 4);
        }
        self.count(4, Ghost(Elem::I32.bytes(value as int)))
    }

    fn add_f64(&mut self, value: u64) -> (r: TsonResult<()>) {
        proof {
            lemma_le_bytes_len(Elem::F64.code(value as int), 8);
        }
        self.count(8, Ghost(Elem::F64.bytes(value as int)))
    }

    fn add_u16(&mut self, value: u16) -> (r: TsonResult<()>) {
        proof {
            lemma_le_bytes_len(Elem::U16.code(value as int), 2);
        }
        self.count(2, Ghost(Elem::U16.bytes(value as int)))
    }

    fn add_i16(&mut self, value: i16) -> (r: TsonResult<()>) {
        proof {
            lemma_le_bytes_len(Elem::I16.code(value as int), 2);
        }
        self.count(2, Ghost(Elem::I16.bytes(value as int)))
    }

    fn add_u64(&mut self, value: u64) -> (r: TsonResult<()>) {
        proof {
            lemma_le_bytes_len(Elem::U64.code(value as int), 8);
        }
        self.count(8, Ghost(Elem::U64.bytes(value as int)))
    }

    fn add_i64(&mut self, value: i64) -> (r: TsonResult<()>) {
        proof {
            lemma_le_bytes_len(Elem::I64.code(value as int), 8);
        }
        self.count(8, Ghost(Elem::I64.bytes(value as int)))
    }

    fn add_f32(&mut self, value: u32) -> (r: TsonResult<()>) {
        proof {
            lemma_le_bytes_len(Elem::F32.code(value as int), 4);
        }
        self.count(4, Ghost(Elem::F32.bytes(value as int)))
    }

    fn put_slice(&mut self, src: &[u8]) -> (r: TsonResult<()>) {
        self.count(src.len(), Ghost(src@))
    }
}

/// An integer type whose values are the elements of a typed list.
pub trait Element: Integer + Copy {
    /// The element type that the values are written as.
    spec fn kind() -> Elem;

    /// Writes one element.
    fn add<W: Writer>(self, buf: &mut W) -> (r: TsonResult<()>)
        ensures
            wrote_whole(old(buf).sink(), Self::kind().bytes(self as int), r, final(buf).sink()),
    ;
}

impl Element for u8 {
    open spec fn kind() -> Elem {
        Elem::U8
    }

    fn add<W: Writer>(self, buf: &mut W) -> (r: TsonResult<()>) {
        buf.add_u8(self)
    }
}

impl Element for i8 {
    open spec fn kind() -> Elem {
        Elem::I8
    }

    fn add<W: Writer>(self, buf: &mut W) -> (r: TsonResult<()>) {
        buf.add_i8(self)
    }
}

impl Element for u16 {
    open spec fn kind() -> Elem {
        Elem::U16
    }

    fn add<W: Writer>(self, buf: &mut W) -> (r: TsonResult<()>) {
        buf.add_u16(self)
    }
}

impl Element for i16 {
    open spec fn kind() -> Elem {
        Elem::I16
    }

    fn add<W: Writer>(self, buf: &mut W) -> (r: TsonResult<()>) {
        buf.add_i16(self)
    }
}

impl Element for u32 {
    open spec fn kind() -> Elem {
        Elem::U32
    }

    fn add<W: Writer>(self, buf: &mut W) -> (r: TsonResult<()>) {
        buf.add_u32(self)
    }
}

impl Element for i32 {
    open spec fn kind() -> Elem {
        Elem::I32
    }

    fn add<W: Writer>(self, buf: &mut W) -> (r: TsonResult<()>) {
        buf.add_i32(self)
    }
}

impl Element for u64 {
    open spec fn kind() -> Elem {
        Elem::U64
    }

    fn add<W: Writer>(self, buf: &mut W) -> (r: TsonResult<()>) {
        buf.add_u64(self)
    }
}

impl Element for i64 {
    open spec fn kind() -> Elem {
        Elem::I64
    }

    fn add<W: Writer>(self, buf: &mut W) -> (r: TsonResult<()>) {
        buf.add_i64(self)
    }
}

/// Writes the elements of `v` from `start` up to `end`.
pub(crate) fn add_elems<T: Element, W: Writer>(
    buf: &mut W,
    v: &Vec<T>,
    start: usize,
    end: usize,
) -> (r: TsonResult<()>)
    requires
        start <= end <= v.len(),
    ensures
        wrote(
            old(buf).sink(),
            encode_elems(T::kind(), ints(v@).subrange(start as int, end as int)),
            r,
            final(buf).sink(),
        ),
{
    let ghost before = buf.sink();
    let ghost xs = ints(v@);
    let mut i: usize = start;
    assert(encode_elems(T::kind(), xs.subrange(start as int, start as int)) =~= Seq::<u8>::empty());
    assert(before.written + Seq::<u8>::empty() =~= before.written);
    while i < end
        invariant
            before == old(buf).sink(),
            xs == ints(v@),
            start <= i <= end <= v.len(),
            buf.sink().limit == before.limit,
            buf.sink().written == before.written + encode_elems(
                T::kind(),
                xs.subrange(start as int, i as int),
            ),
            takes(before, encode_elems(T::kind(), xs.subrange(start as int, i as int)).len()),
        decreases end - i,
    {
        proof {
            lemma_encode_elems_range(T::kind(), xs, start as int, i as int, end as int);
        }
        v[i].add(buf)?;
        i += 1;
    }
    Ok(())
}

/// The one-shot encoder.
pub struct Serializer {}

impl Serializer {
    pub fn new() -> Serializer {
        Serializer {  }
    }

    /// The number of bytes that `encode` gives for the value, found by writing
    /// the value to a sink that only counts.
    pub fn encoded_size(&self, value: &Value) -> (r: TsonResult<usize>)
        ensures
            match r {
                Ok(size) => value@.fits() && size == encode(value@).len(),
                Err(e) => (!value@.fits() || encode(value@).len() > usize::MAX) && e.kind
                    == ErrorKind::ValueTooLarge,
            },
    {
        let mut buf = CountWriter::new();
        match self.write(value, &mut buf) {
            Ok(_) => Ok(buf.size),
            Err(e) => Err(e),
        }
    }

    /// The bytes of the stream that holds the value: the header and the value.
    pub fn encode(&self, value: &Value) -> (r: TsonResult<Vec<u8>>)
        ensures
            match r {
                Ok(bytes) => value@.fits() && bytes@ == encode(value@),
                Err(e) => (!value@.fits() || encode(value@).len() > usize::MAX) && e.kind
                    == ErrorKind::ValueTooLarge,
            },
    {
        let size = self.encoded_size(value)?;
        let mut buf: Vec<u8> = Vec::with_capacity(size);
        match self.write(value, &mut buf) {
            Ok(_) => {
                assert(buf@ =~= encode(value@));
                Ok(buf)
            },
            Err(e) => Err(e),
        }
    }

    /// Writes the stream that holds the value to `writer`.
    pub fn write<W: Writer>(&self, value: &Value, writer: &mut W) -> (r: TsonResult<()>)
        ensures
            wrote_if(value@.fits(), old(writer).sink(), encode(value@), r, final(writer).sink()),
    {
        let ghost before = writer.sink();
        proof {
            lemma_encode_object_len(value@);
        }
        self.add_string(writer, VERSION)?;
        let r = self.add_object(value, writer);
        assert(before.written + header() + encode_object(value@) =~= before.written + encode(
            value@,
        ));
        r
    }

    fn add_object<W: Writer>(&self, value: &Value, buf: &mut W) -> (r: TsonResult<()>)
        ensures
            wrote_if(
                value@.fits(),
                old(buf).sink(),
                encode_object(value@),
                r,
                final(buf).sink(),
            ),
        decreases value,
    {
        let ghost before = buf.sink();
        let ghost head = encode_head(value@);
        proof {
            lemma_encode_object_len(value@);
            lemma_u8_bytes(tag_of(value@));
            lemma_u8_bytes(0);
            lemma_u8_bytes(1);
        }
        match value {
            Value::NULL => {
                buf.add_u8(NULL_TYPE)?;
                assert(buf.sink().written =~= before.written + encode_object(value@));
            },
            Value::STR(v) => {
                self.add_string(buf, v.as_str())?;
                assert(encode_string(v@) =~= encode_object(value@));
            },
            Value::I32(v) => {
                buf.add_u8(INTEGER_TYPE)?;
                buf.add_i32(*v)?;
                assert(buf.sink().written =~= before.written + encode_object(value@));
            },
            Value::F64(v) => {
                buf.add_u8(DOUBLE_TYPE)?;
                buf.add_f64(*v)?;
                assert(buf.sink().written =~= before.written + encode_object(value@));
            },
            Value::BOOL(v) => {
                buf.add_u8(BOOL_TYPE)?;
                if *v {
                    buf.add_u8(1)?;
                } else {
                    buf.add_u8(0)?;
                }
                assert(buf.sink().written =~= before.written + encode_object(value@));
            },
            Value::LST(v) => {
                let ghost items = views_of(v@);
                proof {
                    lemma_views_of(v@);
                }
                buf.add_u8(LIST_TYPE)?;
                self.add_len(buf, v.len())?;
                proof {
                    assert(buf.sink().written =~= before.written + head);
                    assert(encode_items(items.take(0)) =~= Seq::<u8>::empty());
                    assert(before.written + head + Seq::<u8>::empty() =~= before.written + head);
                }
                let mut i: usize = 0;
                while i < v.len()
                    invariant
                        *value == Value::LST(*v),
                        before == old(buf).sink(),
                        head == encode_head(value@),
                        items == views_of(v@),
                        items.len() == v.len() <= MAX_LIST_LENGTH,
                        i <= v.len(),
                        buf.sink().limit == before.limit,
                        buf.sink().written == before.written + head + encode_items(
                            items.take(i as int),
                        ),
                        takes(before, (head + encode_items(items.take(i as int))).len()),
                        forall|j: int| 0 <= j < i ==> (#[trigger] items[j]).fits(),
                    decreases v.len() - i,
                {
                    let object = &v[i];
                    proof {
                        assert(decreases_to!(value->LST_0 => v[i as int]));
                        lemma_views_of(v@);
                        lemma_encode_items_split(items, i as int);
                    }
                    self.add_object(object, buf)?;
                    i += 1;
                }
                assert(items.take(v.len() as int) =~= items);
                assert(buf.sink().written =~= before.written + encode_object(value@));
            },
            Value::MAP(v) => {
                let ghost entries = entries_of(v@);
                proof {
                    lemma_entries_of(v@);
                }
                buf.add_u8(MAP_TYPE)?;
                self.add_len(buf, v.len())?;
                proof {
                    assert(buf.sink().written =~= before.written + head);
                    assert(encode_entries(entries.take(0)) =~= Seq::<u8>::empty());
                    assert(before.written + head + Seq::<u8>::empty() =~= before.written + head);
                }
                let mut i: usize = 0;
                while i < v.len()
                    invariant
                        *value == Value::MAP(*v),
                        before == old(buf).sink(),
                        head == encode_head(value@),
                        entries == entries_of(v@),
                        entries.len() == v.len() <= MAX_LIST_LENGTH,
                        i <= v.len(),
                        buf.sink().limit == before.limit,
                        buf.sink().written == before.written + head + encode_entries(
                            entries.take(i as int),
                        ),
                        takes(before, (head + encode_entries(entries.take(i as int))).len()),
                        forall|j: int| 0 <= j < i ==> (#[trigger] entries[j]).1.fits(),
                    decreases v.len() - i,
                {
                    let entry = &v[i];
                    let ghost held = buf.sink().written;
                    proof {
                        assert(decreases_to!(value->MAP_0 => v[i as int]));
                        lemma_entries_of(v@);
                        lemma_encode_entries_split(entries, i as int);
                        lemma_encode_object_len(entries[i as int].1);
                    }
                    self.add_string(buf, entry.0.as_str())?;
                    self.add_object(&entry.1, buf)?;
                    assert(buf.sink().written =~= held + encode_entry(entries[i as int]));
                    i += 1;
                }
                assert(entries.take(v.len() as int) =~= entries);
                assert(buf.sink().written =~= before.written + encode_object(value@));
            },
            Value::LSTU8(v) => {
                buf.add_u8(LIST_UINT8_TYPE)?;
                self.add_len(buf, v.len())?;
                assert(ints(v@).subrange(0, v.len() as int) =~= ints(v@));
                add_elems(buf, v, 0, v.len())?;
                assert(buf.sink().written =~= before.written + encode_object(value@));
            },
            Value::LSTI8(v) => {
                buf.add_u8(LIST_INT8_TYPE)?;
                self.add_len(buf, v.len())?;
                assert(ints(v@).subrange(0, v.len() as int) =~= ints(v@));
                add_elems(buf, v, 0, v.len())?;
                assert(buf.sink().written =~= before.written + encode_object(value@));
            },
            Value::LSTU16(v) => {
                buf.add_u8(LIST_UINT16_TYPE)?;
                self.add_len(buf, v.len())?;
                assert(ints(v@).subrange(0, v.len() as int) =~= ints(v@));
                add_elems(buf, v, 0, v.len())?;
                assert(buf.sink().written =~= before.written + encode_object(value@));
            },
            Value::LSTI16(v) => {
                buf.add_u8(LIST_INT16_TYPE)?;
                self.add_len(buf, v.len())?;
                assert(ints(v@).subrange(0, v.len() as int) =~= ints(v@));
                add_elems(buf, v, 0, v.len())?;
                assert(buf.sink().written =~= before.written + encode_object(value@));
            },
            Value::LSTU32(v) => {
                buf.add_u8(LIST_UINT32_TYPE)?;
                self.add_len(buf, v.len())?;
                assert(ints(v@).subrange(0, v.len() as int) =~= ints(v@));
                add_elems(buf, v, 0, v.len())?;
                assert(buf.sink().written =~= before.written + encode_object(value@));
            },
            Value::LSTI32(v) => {
                buf.add_u8(LIST_INT32_TYPE)?;
                self.add_len(buf, v.len())?;
                assert(ints(v@).subrange(0, v.len() as int) =~= ints(v@));
                add_elems(buf, v, 0, v.len())?;
                assert(buf.sink().written =~= before.written + encode_object(value@));
            },
            Value::LSTU64(v) => {
                buf.add_u8(LIST_UINT64_TYPE)?;
                self.add_len(buf, v.len())?;
                assert(ints(v@).subrange(0, v.len() as int) =~= ints(v@));
                add_elems(buf, v, 0, v.len())?;
                assert(buf.sink().written =~= before.written + encode_object(value@));
            },
            Value::LSTI64(v) => {
                buf.add_u8(LIST_INT64_TYPE)?;
                self.add_len(buf, v.len())?;
                assert(ints(v@).subrange(0, v.len() as int) =~= ints(v@));
                add_elems(buf, v, 0, v.len())?;
                assert(buf.sink().written =~= before.written + encode_object(value@));
            },
            Value::LSTF32(v) => {
                buf.add_u8(LIST_FLOAT32_TYPE)?;
                self.add_len(buf, v.len())?;
                proof {
                    lemma_encode_elems_same(Elem::U32, Elem::F32, ints(v@));
                    assert(ints(v@).subrange(0, v.len() as int) =~= ints(v@));
                }
                add_elems(buf, v, 0, v.len())?;
                assert(buf.sink().written =~= before.written + encode_object(value@));
            },
            Value::LSTF64(v) => {
                buf.add_u8(LIST_FLOAT64_TYPE)?;
                self.add_len(buf, v.len())?;
                proof {
                    lemma_encode_elems_same(Elem::U64, Elem::F64, ints(v@));
                    assert(ints(v@).subrange(0, v.len() as int) =~= ints(v@));
                }
                add_elems(buf, v, 0, v.len())?;
                assert(buf.sink().written =~= before.written + encode_object(value@));
            },
            Value::LSTSTR(v) => {
                buf.add_u8(LIST_STRING_TYPE)?;
                let len_in_bytes = v.bytes.len();
                self.add_len(buf, len_in_bytes)?;
                buf.put_slice(v.bytes.as_slice())?;
                assert(buf.sink().written =~= before.written + encode_object(value@));
            },
        }
        Ok(())
    }

    /// Writes a length field, or refuses a length that does not fit it. Where
    /// it fails, nothing was written.
    fn add_len<W: Writer>(&self, buf: &mut W, len: usize) -> (r: TsonResult<()>)
        ensures
            wrote_if(
                len <= MAX_LIST_LENGTH,
                old(buf).sink(),
                len_field(len as nat),
                r,
                final(buf).sink(),
            ),
            r is Err ==> final(buf).sink() == old(buf).sink(),
    {
        if len > MAX_LIST_LENGTH {
            return Err(TsonError::of_kind(ErrorKind::ValueTooLarge));
        }
        buf.add_u32(len as u32)
    }

    fn add_string<W: Writer>(&self, buf: &mut W, value: &str) -> (r: TsonResult<()>)
        ensures
            wrote(old(buf).sink(), encode_string(value@), r, final(buf).sink()),
    {
        let ghost before = buf.sink();
        proof {
            lemma_u8_bytes(STRING_TYPE);
        }
        buf.add_u8(STRING_TYPE)?;
        let r = self.add_cstring(buf, value);
        assert(before.written + seq![STRING_TYPE] + cstring(value@) =~= before.written
            + encode_string(value@));
        r
    }

    fn add_cstring<W: Writer>(&self, buf: &mut W, value: &str) -> (r: TsonResult<()>)
        ensures
            wrote(old(buf).sink(), cstring(value@), r, final(buf).sink()),
    {
        let ghost before = buf.sink();
        let bytes = value.as_bytes();
        let mut i: usize = 0;
        assert(before.written + bytes@.take(0) =~= before.written);
        while i < bytes.len()
            invariant
                before == old(buf).sink(),
                bytes@ == vstd::utf8::encode_utf8(value@),
                i <= bytes.len(),
                buf.sink().limit == before.limit,
                buf.sink().written == before.written + bytes@.take(i as int),
                takes(before, i as nat),
            decreases bytes.len() - i,
        {
            let ghost held = buf.sink().written;
            proof {
                lemma_u8_bytes(bytes[i as int]);
            }
            buf.add_u8(bytes[i])?;
            assert(held + seq![bytes[i as int]] =~= before.written + bytes@.take(i + 1));
            i += 1;
        }
        proof {
            lemma_u8_bytes(0);
        }
        let r = buf.add_u8(0);
        assert(bytes@.take(bytes.len() as int) =~= bytes@);
        assert(before.written + bytes@ + seq![0u8] =~= before.written + cstring(value@));
        r
    }
}

} // verus!
