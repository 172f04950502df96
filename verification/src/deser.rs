//! Byte sources and the decoder that reads one whole value from a source.

use byteorder::{ByteOrder, LittleEndian};
use vstd::prelude::*;
use crate::elem::{Elem, ints, parse_elem, parse_elems, prepend, lemma_parse_elems_next,
    lemma_parse_elems_same};
use crate::error::{ErrorKind, TsonError, TsonResult};
use crate::laws::lemma_parse_object_wf;
use crate::le::{le_nat, untwos, lemma_pow256_values};
use crate::ser::put_slice;
use crate::strvec::{StrVec, parse_packed};
use crate::tags::{BOOL_TYPE, DOUBLE_TYPE, INTEGER_TYPE, LIST_FLOAT32_TYPE, LIST_FLOAT64_TYPE,
    LIST_INT16_TYPE, LIST_INT32_TYPE, LIST_INT64_TYPE, LIST_INT8_TYPE, LIST_STRING_TYPE, LIST_TYPE,
    LIST_UINT16_TYPE, LIST_UINT32_TYPE, LIST_UINT64_TYPE, LIST_UINT8_TYPE, MAP_TYPE,
    MAX_LIST_LENGTH, NULL_TYPE, STRING_TYPE, VERSION};
use crate::text::{cstring, nul_free, parse_text, past_text, span, string_from_utf8,
    lemma_parse_text_ok, lemma_span_is};
use crate::value::{Tson, Value, entries_of, views_of, lemma_entries_of};
use crate::wire::{key_index, parse, parse_entries, parse_items, parse_len, parse_object, upsert,
    lemma_parse_entries_rest, lemma_parse_items_rest, lemma_parse_object_rest};

verus! {

/// What a read of one element owes: on success the element read off the front of
/// `before` with `after` left, and a failure only where the input ends early.
pub open spec fn reads_elem(
    kind: Elem,
    before: Seq<u8>,
    r: TsonResult<int>,
    after: Seq<u8>,
) -> bool {
    match r {
        Ok(x) => parse_elem(kind, before) == Some((x, after)),
        Err(e) => parse_elem(kind, before) is None && e.kind == ErrorKind::UnexpectedEndOfInput,
    }
}

/// What a read of `count` elements into a vector owes: on success the vector
/// grown by the elements read off the front of `before` with `after` left, and a
/// failure only where the input ends early.
pub open spec fn reads_elems(
    kind: Elem,
    before: Seq<u8>,
    count: nat,
    r: TsonResult<()>,
    after: Seq<u8>,
    held: Seq<int>,
    holds: Seq<int>,
) -> bool {
    match r {
        Ok(_) => {
            &&& holds.len() == held.len() + count
            &&& holds.take(held.len() as int) == held
            &&& parse_elems(kind, before, count) == Some((holds.skip(held.len() as int), after))
        },
        Err(e) => parse_elems(kind, before, count) is None && e.kind
            == ErrorKind::UnexpectedEndOfInput,
    }
}

/// What a read of one text field owes: the text and what is left as `parse_text`
/// gives them, and the error that `parse_text` gives.
pub open spec fn reads_text(before: Seq<u8>, r: TsonResult<Seq<char>>, after: Seq<u8>) -> bool {
    match r {
        Ok(text) => parse_text(before) == Ok::<_, ErrorKind>((text, after)),
        Err(e) => parse_text(before) == Err::<(Seq<char>, Seq<u8>), _>(e.kind),
    }
}

/// One byte is an element of type `U8`.
pub proof fn lemma_byte_is_elem(bytes: Seq<u8>)
    ensures
        bytes.len() >= 1 ==> parse_elem(Elem::U8, bytes) == Some((bytes[0] as int, bytes.skip(1))),
        bytes.len() == 0 ==> parse_elem(Elem::U8, bytes) is None,
{
    if bytes.len() >= 1 {
        reveal_with_fuel(le_nat, 2);
        assert(bytes.take(1).drop_first().len() == 0);
    }
}

/// `byteorder::LittleEndian::read_u16` gives the number that the first two bytes
/// spell, lowest byte first.
#[verifier::external_body]
fn le_read_u16(bytes: &[u8]) -> (r: u16)
    requires
        bytes@.len() >= 2,
    ensures
        r as nat == le_nat(bytes@.take(2)),
{
    LittleEndian::read_u16(bytes)
}

/// `byteorder::LittleEndian::read_i16` gives the signed number whose two's
/// complement the first two bytes spell, lowest byte first.
#[verifier::external_body]
fn le_read_i16(bytes: &[u8]) -> (r: i16)
    requires
        bytes@.len() >= 2,
    ensures
        r as int == untwos(le_nat(bytes@.take(2)), 2),
{
    LittleEndian::read_i16(bytes)
}

/// `byteorder::LittleEndian::read_u32` gives the number that the first four bytes
/// spell, lowest byte first.
#[verifier::external_body]
fn le_read_u32(bytes: &[u8]) -> (r: u32)
    requires
        bytes@.len() >= 4,
    ensures
        r as nat == le_nat(bytes@.take(4)),
{
    LittleEndian::read_u32(bytes)
}

/// `byteorder::LittleEndian::read_i32` gives the signed number whose two's
/// complement the first four bytes spell, lowest byte first.
#[verifier::external_body]
fn le_read_i32(bytes: &[u8]) -> (r: i32)
    requires
        bytes@.len() >= 4,
    ensures
        r as int == untwos(le_nat(bytes@.take(4)), 4),
{
    LittleEndian::read_i32(bytes)
}

/// `byteorder::LittleEndian::read_u64` gives the number that the first eight bytes
/// spell, lowest byte first.
#[verifier::external_body]
fn le_read_u64(bytes: &[u8]) -> (r: u64)
    requires
        bytes@.len() >= 8,
    ensures
        r as nat == le_nat(bytes@.take(8)),
{
    LittleEndian::read_u64(bytes)
}

/// `byteorder::LittleEndian::read_i64` gives the signed number whose two's
/// complement the first eight bytes spell, lowest byte first.
#[verifier::external_body]
fn le_read_i64(bytes: &[u8]) -> (r: i64)
    requires
        bytes@.len() >= 8,
    ensures
        r as int == untwos(le_nat(bytes@.take(8)), 8),
{
    LittleEndian::read_i64(bytes)
}

/// An integer type whose values are read as the elements of a typed list, each
/// from as many bytes as the element type is wide, lowest byte first.
pub trait FromBytes: Integer + Copy {
    /// The element type that the values are read as.
    spec fn kind() -> Elem;

    /// The number of bytes that one element takes.
    fn width() -> (w: usize)
        ensures
            w == Self::kind().width(),
    ;

    /// The element that the first bytes of `bytes` hold.
    fn from_bytes(bytes: &[u8]) -> (x: Self)
        requires
            bytes@.len() >= Self::kind().width(),
        ensures
            x as int == Self::kind().of_bytes(bytes@.take(Self::kind().width() as int)),
    ;
}

impl FromBytes for u8 {
    open spec fn kind() -> Elem {
        Elem::U8
    }

    fn width() -> (w: usize) {
        1
    }

    fn from_bytes(bytes: &[u8]) -> (x: u8) {
        proof {
            lemma_byte_is_elem(bytes@);
        }
        bytes[0]
    }
}

impl FromBytes for i8 {
    open spec fn kind() -> Elem {
        Elem::I8
    }

    fn width() -> (w: usize) {
        1
    }

    fn from_bytes(bytes: &[u8]) -> (x: i8) {
        let b = bytes[0];
        let x = #[verifier::truncate] (b as i8);
        proof {
            lemma_pow256_values();
            lemma_byte_is_elem(bytes@);
            assert(le_nat(bytes@.take(1)) == b as nat);
            assert(b < 128 ==> x == b) by (bit_vector)
                requires
                    x == b as i8,
            ;
            assert(b >= 128 ==> x == b - 256) by (bit_vector)
                requires
                    x == b as i8,
            ;
            assert(x as int == untwos(b as nat, 1));
            assert(x as int == <i8 as FromBytes>::kind().of_bytes(
                bytes@.take(<i8 as FromBytes>::kind().width() as int),
            ));
        }
        x
    }
}

impl FromBytes for u16 {
    open spec fn kind() -> Elem {
        Elem::U16
    }

    fn width() -> (w: usize) {
        2
    }

    fn from_bytes(bytes: &[u8]) -> (x: u16) {
        proof {
            lemma_pow256_values();
        }
        le_read_u16(bytes)
    }
}

impl FromBytes for i16 {
    open spec fn kind() -> Elem {
        Elem::I16
    }

    fn width() -> (w: usize) {
        2
    }

    fn from_bytes(bytes: &[u8]) -> (x: i16) {
        proof {
            lemma_pow256_values();
        }
        le_read_i16(bytes)
    }
}

impl FromBytes for u32 {
    open spec fn kind() -> Elem {
        Elem::U32
    }

    fn width() -> (w: usize) {
        4
    }

    fn from_bytes(bytes: &[u8]) -> (x: u32) {
        proof {
            lemma_pow256_values();
        }
        le_read_u32(bytes)
    }
}

impl FromBytes for i32 {
    open spec fn kind() -> Elem {
        Elem::I32
    }

    fn width() -> (w: usize) {
        4
    }

    fn from_bytes(bytes: &[u8]) -> (x: i32) {
        proof {
            lemma_pow256_values();
        }
        le_read_i32(bytes)
    }
}

impl FromBytes for u64 {
    open spec fn kind() -> Elem {
        Elem::U64
    }

    fn width() -> (w: usize) {
        8
    }

    fn from_bytes(bytes: &[u8]) -> (x: u64) {
        proof {
            lemma_pow256_values();
        }
        le_read_u64(bytes)
    }
}

impl FromBytes for i64 {
    open spec fn kind() -> Elem {
        Elem::I64
    }

    fn width() -> (w: usize) {
        8
    }

    fn from_bytes(bytes: &[u8]) -> (x: i64) {
        proof {
            lemma_pow256_values();
        }
        le_read_i64(bytes)
    }
}

/// A byte source. What it has yet to give is `remaining()`; every read takes
/// bytes off the front of it. An implementation supplies `read_u8`; the other
/// reads are built on it.
pub trait Reader {
    /// The bytes that have not been read yet. A source that gives no account of
    /// them leaves them unknown.
    open spec fn remaining(&self) -> Seq<u8> {
        arbitrary()
    }

    /// Reads one byte, or fails where none is left.
    fn read_u8(&mut self) -> (r: TsonResult<u8>)
        ensures
            match r {
                Ok(b) => old(self).remaining().len() >= 1 && b == old(self).remaining()[0]
                    && final(self).remaining() == old(self).remaining().skip(1),
                Err(e) => old(self).remaining().len() == 0 && final(self).remaining().len() == 0
                    && e.kind == ErrorKind::UnexpectedEndOfInput,
            },
    ;

    /// Reads exactly `count` bytes, or fails where fewer are left.
    fn read_exact(&mut self, count: usize) -> (r: TsonResult<Vec<u8>>)
        ensures
            match r {
                Ok(bytes) => old(self).remaining().len() >= count && bytes@ == old(
                    self,
                ).remaining().take(count as int) && final(self).remaining() == old(
                    self,
                ).remaining().skip(count as int),
                Err(e) => old(self).remaining().len() < count && e.kind
                    == ErrorKind::UnexpectedEndOfInput,
            },
    {
        let ghost before = self.remaining();
        let mut bytes: Vec<u8> = Vec::new();
        let mut i: usize = 0;
        while i < count
            invariant
                before == old(self).remaining(),
                i <= count,
                i <= before.len(),
                bytes@ == before.take(i as int),
                self.remaining() == before.skip(i as int),
            decreases count - i,
        {
            let b = self.read_u8()?;
            bytes.push(b);
            i += 1;
            assert(bytes@ =~= before.take(i as int));
            assert(self.remaining() =~= before.skip(i as int));
        }
        Ok(bytes)
    }

    /// Reads all that is left and appends it to `buf`.
    fn read_all(&mut self, buf: &mut Vec<u8>) -> (r: TsonResult<()>)
        ensures
            r is Ok,
            final(buf)@ == old(buf)@ + old(self).remaining(),
            final(self).remaining().len() == 0,
    {
        let ghost before = self.remaining();
        let ghost held = buf@;
        let ghost mut taken: int = 0;
        loop
            invariant
                before == old(self).remaining(),
                held == old(buf)@,
                0 <= taken <= before.len(),
                buf@ == held + before.take(taken),
                self.remaining() == before.skip(taken),
            decreases before.len() - taken,
        {
            match self.read_u8() {
                Ok(b) => {
                    buf.push(b);
                    proof {
                        taken = taken + 1;
                    }
                    assert(buf@ =~= held + before.take(taken));
                    assert(self.remaining() =~= before.skip(taken));
                },
                Err(_) => {
                    assert(before.take(taken) =~= before);
                    return Ok(());
                },
            }
        }
    }

    /// Reads one signed byte.
    fn read_i8(&mut self) -> (r: TsonResult<i8>)
        ensures
            reads_elem(
                Elem::I8,
                old(self).remaining(),
                match r {
                    Ok(x) => Ok(x as int),
                    Err(e) => Err(e),
                },
                final(self).remaining(),
            ),
    {
        let bytes = self.read_exact(1)?;
        assert(bytes@.take(1) =~= bytes@);
        Ok(<i8 as FromBytes>::from_bytes(bytes.as_slice()))
    }

    /// Reads a two-byte unsigned number, lowest byte first.
    fn read_u16(&mut self) -> (r: TsonResult<u16>)
        ensures
            reads_elem(
                Elem::U16,
                old(self).remaining(),
                match r {
                    Ok(x) => Ok(x as int),
                    Err(e) => Err(e),
                },
                final(self).remaining(),
            ),
    {
        let bytes = self.read_exact(2)?;
        proof {
            lemma_pow256_values();
            assert(bytes@.take(2) =~= bytes@);
        }
        Ok(le_read_u16(bytes.as_slice()))
    }

    /// Reads a two-byte signed number, lowest byte first.
    fn read_i16(&mut self) -> (r: TsonResult<i16>)
        ensures
            reads_elem(
                Elem::I16,
                old(self).remaining(),
                match r {
                    Ok(x) => Ok(x as int),
                    Err(e) => Err(e),
                },
                final(self).remaining(),
            ),
    {
        let bytes = self.read_exact(2)?;
        proof {
            lemma_pow256_values();
            assert(bytes@.take(2) =~= bytes@);
        }
        Ok(le_read_i16(bytes.as_slice()))
    }

    /// Reads a four-byte unsigned number, lowest byte first.
    fn read_u32(&mut self) -> (r: TsonResult<u32>)
        ensures
            reads_elem(
                Elem::U32,
                old(self).remaining(),
                match r {
                    Ok(x) => Ok(x as int),
                    Err(e) => Err(e),
                },
                final(self).remaining(),
            ),
    {
        let bytes = self.read_exact(4)?;
        proof {
            lemma_pow256_values();
            assert(bytes@.take(4) =~= bytes@);
        }
        Ok(le_read_u32(bytes.as_slice()))
    }

    /// Reads a four-byte signed number, lowest byte first.
    fn read_i32(&mut self) -> (r: TsonResult<i32>)
        ensures
            reads_elem(
                Elem::I32,
                old(self).remaining(),
                match r {
                    Ok(x) => Ok(x as int),
                    Err(e) => Err(e),
                },
                final(self).remaining(),
            ),
    {
        let bytes = self.read_exact(4)?;
        proof {
            lemma_pow256_values();
            assert(bytes@.take(4) =~= bytes@);
        }
        Ok(le_read_i32(bytes.as_slice()))
    }

    /// Reads an eight-byte unsigned number, lowest byte first.
    fn read_u64(&mut self) -> (r: TsonResult<u64>)
        ensures
            reads_elem(
                Elem::U64,
                old(self).remaining(),
                match r {
                    Ok(x) => Ok(x as int),
                    Err(e) => Err(e),
                },
                final(self).remaining(),
            ),
    {
        let bytes = self.read_exact(8)?;
        proof {
            lemma_pow256_values();
            assert(bytes@.take(8) =~= bytes@);
        }
        Ok(le_read_u64(bytes.as_slice()))
    }

    /// Reads an eight-byte signed number, lowest byte first.
    fn read_i64(&mut self) -> (r: TsonResult<i64>)
        ensures
            reads_elem(
                Elem::I64,
                old(self).remaining(),
                match r {
                    Ok(x) => Ok(x as int),
                    Err(e) => Err(e),
                },
                final(self).remaining(),
            ),
    {
        let bytes = self.read_exact(8)?;
        proof {
            lemma_pow256_values();
            assert(bytes@.take(8) =~= bytes@);
        }
        Ok(le_read_i64(bytes.as_slice()))
    }

    /// Reads the bit pattern of a four-byte IEEE-754 number, lowest byte first.
    fn read_f32(&mut self) -> (r: TsonResult<u32>)
        ensures
            reads_elem(
                Elem::F32,
                old(self).remaining(),
                match r {
                    Ok(x) => Ok(x as int),
                    Err(e) => Err(e),
                },
                final(self).remaining(),
            ),
    {
        self.read_u32()
    }

    /// Reads the bit pattern of an eight-byte IEEE-754 number, lowest byte first.
    fn read_f64(&mut self) -> (r: TsonResult<u64>)
        ensures
            reads_elem(
                Elem::F64,
                old(self).remaining(),
                match r {
                    Ok(x) => Ok(x as int),
                    Err(e) => Err(e),
                },
                final(self).remaining(),
            ),
    {
        self.read_u64()
    }

    /// Reads `count` elements and appends them to `dest`.
    fn read_elems<T: FromBytes>(&mut self, dest: &mut Vec<T>, count: usize) -> (r: TsonResult<()>)
        ensures
            reads_elems(
                T::kind(),
                old(self).remaining(),
                count as nat,
                r,
                final(self).remaining(),
                ints(old(dest)@),
                ints(final(dest)@),
            ),
    {
        let ghost before = self.remaining();
        let ghost held = ints(dest@);
        let mut i: usize = 0;
        while i < count
            invariant
                before == old(self).remaining(),
                held == ints(old(dest)@),
                i <= count,
                ints(dest@).len() == held.len() + i,
                ints(dest@).take(held.len() as int) == held,
                parse_elems(T::kind(), before, count as nat) == prepend(
                    ints(dest@).skip(held.len() as int),
                    parse_elems(T::kind(), self.remaining(), (count - i) as nat),
                ),
            decreases count - i,
        {
            let ghost got = ints(dest@).skip(held.len() as int);
            proof {
                lemma_parse_elems_next(T::kind(), self.remaining(), (count - i) as nat, got);
            }
            let bytes = self.read_exact(T::width())?;
            let x = T::from_bytes(bytes.as_slice());
            dest.push(x);
            i += 1;
            proof {
                assert(bytes@.take(T::kind().width() as int) =~= bytes@);
                assert(ints(dest@).skip(held.len() as int) =~= got.push(x as int));
                assert(ints(dest@).take(held.len() as int) =~= held);
            }
        }
        assert(ints(dest@).skip(held.len() as int) + Seq::<int>::empty() =~= ints(dest@).skip(
            held.len() as int,
        ));
        Ok(())
    }

    /// Reads `count` elements and appends them to `dest`.
    fn read_u8_into(&mut self, dest: &mut Vec<u8>, count: usize) -> (r: TsonResult<()>)
        ensures
            reads_elems(
                Elem::U8,
                old(self).remaining(),
                count as nat,
                r,
                final(self).remaining(),
                ints(old(dest)@),
                ints(final(dest)@),
            ),
    {
        self.read_elems(dest, count)
    }

    /// Reads `count` elements and appends them to `dest`.
    fn read_i8_into(&mut self, dest: &mut Vec<i8>, count: usize) -> (r: TsonResult<()>)
        ensures
            reads_elems(
                Elem::I8,
                old(self).remaining(),
                count as nat,
                r,
                final(self).remaining(),
                ints(old(dest)@),
                ints(final(dest)@),
            ),
    {
        self.read_elems(dest, count)
    }

    /// Reads `count` elements and appends them to `dest`.
    fn read_u16_into(&mut self, dest: &mut Vec<u16>, count: usize) -> (r: TsonResult<()>)
        ensures
            reads_elems(
                Elem::U16,
                old(self).remaining(),
                count as nat,
                r,
                final(self).remaining(),
                ints(old(dest)@),
                ints(final(dest)@),
            ),
    {
        self.read_elems(dest, count)
    }

    /// Reads `count` elements and appends them to `dest`.
    fn read_i16_into(&mut self, dest: &mut Vec<i16>, count: usize) -> (r: TsonResult<()>)
        ensures
            reads_elems(
                Elem::I16,
                old(self).remaining(),
                count as nat,
                r,
                final(self).remaining(),
                ints(old(dest)@),
                ints(final(dest)@),
            ),
    {
        self.read_elems(dest, count)
    }

    /// Reads `count` elements and appends them to `dest`.
    fn read_u32_into(&mut self, dest: &mut Vec<u32>, count: usize) -> (r: TsonResult<()>)
        ensures
            reads_elems(
                Elem::U32,
                old(self).remaining(),
                count as nat,
                r,
                final(self).remaining(),
                ints(old(dest)@),
                ints(final(dest)@),
            ),
    {
        self.read_elems(dest, count)
    }

    /// Reads `count` elements and appends them to `dest`.
    fn read_i32_into(&mut self, dest: &mut Vec<i32>, count: usize) -> (r: TsonResult<()>)
        ensures
            reads_elems(
                Elem::I32,
                old(self).remaining(),
                count as nat,
                r,
                final(self).remaining(),
                ints(old(dest)@),
                ints(final(dest)@),
            ),
    {
        self.read_elems(dest, count)
    }

    /// Reads `count` elements and appends them to `dest`.
    fn read_u64_into(&mut self, dest: &mut Vec<u64>, count: usize) -> (r: TsonResult<()>)
        ensures
            reads_elems(
                Elem::U64,
                old(self).remaining(),
                count as nat,
                r,
                final(self).remaining(),
                ints(old(dest)@),
                ints(final(dest)@),
            ),
    {
        self.read_elems(dest, count)
    }

    /// Reads `count` elements and appends them to `dest`.
    fn read_i64_into(&mut self, dest: &mut Vec<i64>, count: usize) -> (r: TsonResult<()>)
        ensures
            reads_elems(
                Elem::I64,
                old(self).remaining(),
                count as nat,
                r,
                final(self).remaining(),
                ints(old(dest)@),
                ints(final(dest)@),
            ),
    {
        self.read_elems(dest, count)
    }

    /// Reads `count` bit patterns and appends them to `dest`.
    fn read_f32_into(&mut self, dest: &mut Vec<u32>, count: usize) -> (r: TsonResult<()>)
        ensures
            reads_elems(
                Elem::F32,
                old(self).remaining(),
                count as nat,
                r,
                final(self).remaining(),
                ints(old(dest)@),
                ints(final(dest)@),
            ),
    {
        proof {
            lemma_parse_elems_same(Elem::U32, Elem::F32, self.remaining(), count as nat);
        }
        self.read_elems(dest, count)
    }

    /// Reads `count` bit patterns and appends them to `dest`.
    fn read_f64_into(&mut self, dest: &mut Vec<u64>, count: usize) -> (r: TsonResult<()>)
        ensures
            reads_elems(
                Elem::F64,
                old(self).remaining(),
                count as nat,
                r,
                final(self).remaining(),
                ints(old(dest)@),
                ints(final(dest)@),
            ),
    {
        proof {
            lemma_parse_elems_same(Elem::U64, Elem::F64, self.remaining(), count as nat);
        }
        self.read_elems(dest, count)
    }

    /// Reads the bytes up to the next NUL byte as UTF-8 text, and the NUL byte.
    fn read_string(&mut self) -> (r: TsonResult<String>)
        ensures
            reads_text(
                old(self).remaining(),
                match r {
                    Ok(s) => Ok(s@),
                    Err(e) => Err(e),
                },
                final(self).remaining(),
            ),
    {
        let ghost before = self.remaining();
        let mut done = false;
        let mut vec: Vec<u8> = Vec::new();
        while !done
            invariant
                before == old(self).remaining(),
                vec.len() <= before.len(),
                vec@ == before.take(vec.len() as int),
                nul_free(vec@),
                !done ==> self.remaining() == before.skip(vec.len() as int),
                done ==> vec.len() < before.len() && before[vec.len() as int] == 0
                    && self.remaining() == before.skip(vec.len() + 1),
            decreases self.remaining().len() + (if done { 0nat } else { 1nat }),
        {
            let ghost n = vec.len() as int;
            let byte = match self.read_u8() {
                Ok(byte) => byte,
                Err(e) => {
                    proof {
                        lemma_span_is(before, n);
                    }
                    return Err(e);
                },
            };
            if byte == 0 {
                done = true;
                assert(self.remaining() =~= before.skip(n + 1));
            } else {
                vec.push(byte);
                assert(vec@ =~= before.take(n + 1));
                assert(self.remaining() =~= before.skip(n + 1));
            }
        }
        proof {
            lemma_span_is(before, vec.len() as int);
        }
        match string_from_utf8(vec) {
            Some(value) => Ok(value),
            None => Err(TsonError::of_kind(ErrorKind::MalformedString)),
        }
    }
}

/// A byte source over a slice held in memory.
pub struct SliceReader<'a> {
    data: &'a [u8],
    pos: usize,
}

impl<'a> SliceReader<'a> {
    /// A source that gives the bytes of `data` from the first on.
    pub fn new(data: &'a [u8]) -> (r: SliceReader<'a>)
        ensures
            r.remaining() == data@,
    {
        let r = SliceReader { data, pos: 0 };
        assert(data@.skip(0) =~= data@);
        r
    }

    /// The number of bytes read so far.
    pub fn position(&self) -> (n: usize)
        ensures
            n == self.consumed(),
    {
        self.pos
    }

    pub closed spec fn consumed(&self) -> usize {
        self.pos
    }
}

impl<'a> Reader for SliceReader<'a> {
    closed spec fn remaining(&self) -> Seq<u8> {
        if self.pos <= self.data@.len() {
            self.data@.skip(self.pos as int)
        } else {
            Seq::empty()
        }
    }

    fn read_u8(&mut self) -> (r: TsonResult<u8>) {
        if self.pos < self.data.len() {
            let b = self.data[self.pos];
            self.pos += 1;
            assert(self.data@.skip(self.pos as int) =~= self.data@.skip(self.pos - 1).skip(1));
            Ok(b)
        } else {
            Err(TsonError::of_kind(ErrorKind::UnexpectedEndOfInput))
        }
    }
}

/// What decoding owes: the value and what is left as `p` gives them, and the
/// error that `p` gives.
pub open spec fn decoded(
    p: Result<(Tson, Seq<u8>), ErrorKind>,
    r: TsonResult<Value>,
    after: Seq<u8>,
) -> bool {
    match r {
        Ok(value) => p == Ok::<_, ErrorKind>((value@, after)),
        Err(e) => p == Err::<(Tson, Seq<u8>), _>(e.kind),
    }
}

/// What decoding a whole stream owes: the value that `p` gives, whatever is left
/// after it, and the error that `p` gives.
pub open spec fn decodes(p: Result<(Tson, Seq<u8>), ErrorKind>, r: TsonResult<Value>) -> bool {
    match r {
        Ok(value) => p is Ok && p->Ok_0.0 == value@,
        Err(e) => p == Err::<(Tson, Seq<u8>), _>(e.kind),
    }
}

/// Taking `done + used` bytes is taking `done` and then `used` of what is left.
proof fn lemma_take_skip(bytes: Seq<u8>, done: int, used: int)
    requires
        0 <= done,
        0 <= used,
        done + used <= bytes.len(),
    ensures
        bytes.take(done + used) == bytes.take(done) + bytes.skip(done).take(used),
        bytes.skip(done + used) == bytes.skip(done).skip(used),
{
    assert(bytes.take(done + used) =~= bytes.take(done) + bytes.skip(done).take(used));
    assert(bytes.skip(done + used) =~= bytes.skip(done).skip(used));
}

/// Binds `key` to `value` in `entries`: in the place of the entry that has the
/// key, or at the end.
pub fn insert_entry(entries: &mut Vec<(String, Value)>, key: String, value: Value)
    ensures
        entries_of(final(entries)@) == upsert(entries_of(old(entries)@), key@, value@),
{
    let ghost held = entries_of(entries@);
    proof {
        lemma_entries_of(entries@);
    }
    let mut i: usize = 0;
    assert(held.skip(0) =~= held);
    while i < entries.len()
        invariant
            entries@ == old(entries)@,
            held == entries_of(entries@),
            held.len() == entries.len(),
            i <= entries.len(),
            key_index(held, key@) == i + key_index(held.skip(i as int), key@),
        decreases entries.len() - i,
    {
        proof {
            lemma_entries_of(entries@);
            assert(held.skip(i as int).drop_first() =~= held.skip(i + 1));
        }
        if entries[i].0.eq(&key) {
            entries[i].1 = value;
            proof {
                lemma_entries_of(entries@);
                lemma_entries_of(old(entries)@);
                assert(entries_of(entries@) =~= held.update(i as int, (key@, value@)));
            }
            return ;
        }
        i += 1;
    }
    entries.push((key, value));
    proof {
        lemma_entries_of(entries@);
        lemma_entries_of(old(entries)@);
        assert(entries_of(entries@) =~= held.push((key@, value@)));
    }
}

/// The one-shot decoder.
pub struct Deserializer {}

impl Deserializer {
    pub fn new() -> Deserializer {
        Deserializer {  }
    }

    /// Reads a whole stream: the header, then one value. The value is well
    /// formed.
    pub fn read<R: Reader>(&self, reader: &mut R) -> (r: TsonResult<Value>)
        ensures
            decoded(parse(old(reader).remaining()), r, final(reader).remaining()),
            r is Ok ==> r->Ok_0@.wf(),
    {
        let itype = self.read_type(reader)?;
        if itype != STRING_TYPE {
            return Err(TsonError::of_kind(ErrorKind::TypeMismatch));
        }
        let version = self.read_string(reader)?;
        let expected = VERSION.to_owned();
        if !version.eq(&expected) {
            return Err(TsonError::of_kind(ErrorKind::VersionMismatch));
        }
        self.read_object(reader)
    }

    fn read_type<R: Reader>(&self, reader: &mut R) -> (r: TsonResult<u8>)
        ensures
            match r {
                Ok(b) => old(reader).remaining().len() >= 1 && b == old(reader).remaining()[0]
                    && final(reader).remaining() == old(reader).remaining().skip(1),
                Err(e) => old(reader).remaining().len() == 0 && e.kind
                    == ErrorKind::UnexpectedEndOfInput,
            },
    {
        reader.read_u8()
    }

    fn read_len<R: Reader>(&self, reader: &mut R) -> (r: TsonResult<usize>)
        ensures
            match r {
                Ok(len) => parse_len(old(reader).remaining()) == Ok::<_, ErrorKind>(
                    (len as nat, final(reader).remaining()),
                ) && len <= MAX_LIST_LENGTH,
                Err(e) => parse_len(old(reader).remaining()) == Err::<(nat, Seq<u8>), _>(e.kind),
            },
    {
        Ok(reader.read_u32()? as usize)
    }

    fn read_string<R: Reader>(&self, reader: &mut R) -> (r: TsonResult<String>)
        ensures
            reads_text(
                old(reader).remaining(),
                match r {
                    Ok(s) => Ok(s@),
                    Err(e) => Err(e),
                },
                final(reader).remaining(),
            ),
    {
        reader.read_string()
    }

    /// Reads the text fields of a string list whose length field is `len`: the
    /// `len` bytes that hold them.
    fn read_packed<R: Reader>(&self, reader: &mut R, len: usize) -> (r: TsonResult<Vec<u8>>)
        ensures
            match r {
                Ok(bytes) => parse_packed(old(reader).remaining(), len as nat) is Ok && len <= old(
                    reader,
                ).remaining().len() && bytes@ == old(reader).remaining().take(len as int)
                    && final(reader).remaining() == old(reader).remaining().skip(len as int),
                Err(e) => parse_packed(old(reader).remaining(), len as nat) == Err::<(), _>(e.kind),
            },
    {
        let ghost start = reader.remaining();
        let mut left = len;
        let mut bytes: Vec<u8> = Vec::new();
        assert(start.take(0) =~= bytes@);
        assert(start.skip(0) =~= start);
        while left > 0
            invariant
                start == old(reader).remaining(),
                left <= len,
                len - left <= start.len(),
                bytes@ == start.take(len - left),
                reader.remaining() == start.skip(len - left),
                parse_packed(start, len as nat) == parse_packed(reader.remaining(), left as nat),
            decreases left,
        {
            let ghost rest = reader.remaining();
            let ghost done = len - left;
            let ghost held = bytes@;
            let v = self.read_string(reader)?;
            proof {
                lemma_parse_text_ok(rest);
            }
            let text = v.as_str().as_bytes();
            if text.len() >= left {
                return Err(TsonError::of_kind(ErrorKind::DeclaredLengthMismatch));
            }
            put_slice(&mut bytes, text);
            bytes.push(0);
            let ghost used = text.len() + 1;
            left -= text.len() + 1;
            proof {
                assert(used == span(rest) + 1);
                assert(rest == cstring(v@) + past_text(rest));
                assert(cstring(v@) == text@.push(0));
                assert(bytes@ == held + text@.push(0)) by {
                    assert(bytes@ =~= held + text@.push(0));
                }
                assert(rest.take(used) =~= text@.push(0));
                lemma_take_skip(start, done, used);
            }
        }
        assert(len - left == len);
        Ok(bytes)
    }

    /// Reads one value: a scalar, or a container with all that is in it. The
    /// value is well formed.
    pub fn read_object<R: Reader>(&self, reader: &mut R) -> (r: TsonResult<Value>)
        ensures
            decoded(parse_object(old(reader).remaining()), r, final(reader).remaining()),
            r is Ok ==> r->Ok_0@.wf(),
        decreases old(reader).remaining().len(),
    {
        let ghost before = reader.remaining();
        proof {
            if parse_object(before) is Ok {
                lemma_parse_object_wf(before);
            }
        }
        let itype = self.read_type(reader)?;
        let ghost body = reader.remaining();
        if itype == NULL_TYPE {
            Ok(Value::NULL)
        } else if itype == STRING_TYPE {
            Ok(Value::STR(self.read_string(reader)?))
        } else if itype == INTEGER_TYPE {
            Ok(Value::I32(reader.read_i32()?))
        } else if itype == DOUBLE_TYPE {
            Ok(Value::F64(reader.read_f64()?))
        } else if itype == BOOL_TYPE {
            Ok(Value::BOOL(reader.read_u8()? > 0))
        } else if itype == LIST_TYPE {
            let len = self.read_len(reader)?;
            let ghost start = reader.remaining();
            let mut vec: Vec<Value> = Vec::new();
            let mut i: usize = 0;
            while i < len
                invariant
                    i <= len,
                    reader.remaining().len() < before.len(),
                    before == old(reader).remaining(),
                    before.len() > 0,
                    body == before.skip(1),
                    itype == before[0],
                    itype == LIST_TYPE,
                    parse_len(body) == Ok::<_, ErrorKind>((len as nat, start)),
                    parse_items(start, len as nat, Seq::empty()) == parse_items(
                        reader.remaining(),
                        (len - i) as nat,
                        views_of(vec@),
                    ),
                decreases len - i,
            {
                proof {
                    lemma_parse_items_rest(reader.remaining(), (len - i) as nat, views_of(vec@));
                    if parse_object(reader.remaining()) is Ok {
                        lemma_parse_object_rest(reader.remaining());
                    }
                }
                let ghost held = vec@;
                let item = self.read_object(reader)?;
                vec.push(item);
                assert(vec@.drop_last() =~= held);
                i += 1;
            }
            Ok(Value::LST(vec))
        } else if itype == MAP_TYPE {
            let len = self.read_len(reader)?;
            let ghost start = reader.remaining();
            let mut vec: Vec<(String, Value)> = Vec::new();
            let mut i: usize = 0;
            while i < len
                invariant
                    i <= len,
                    reader.remaining().len() < before.len(),
                    before == old(reader).remaining(),
                    before.len() > 0,
                    body == before.skip(1),
                    itype == before[0],
                    itype == MAP_TYPE,
                    parse_len(body) == Ok::<_, ErrorKind>((len as nat, start)),
                    parse_entries(start, len as nat, Seq::empty()) == parse_entries(
                        reader.remaining(),
                        (len - i) as nat,
                        entries_of(vec@),
                    ),
                decreases len - i,
            {
                proof {
                    lemma_parse_entries_rest(
                        reader.remaining(),
                        (len - i) as nat,
                        entries_of(vec@),
                    );
                }
                let ktype = self.read_type(reader)?;
                if ktype != STRING_TYPE {
                    return Err(TsonError::of_kind(ErrorKind::TypeMismatch));
                }
                let key = self.read_string(reader)?;
                proof {
                    if parse_object(reader.remaining()) is Ok {
                        lemma_parse_object_rest(reader.remaining());
                    }
                }
                let value = self.read_object(reader)?;
                insert_entry(&mut vec, key, value);
                i += 1;
            }
            Ok(Value::MAP(vec))
        } else if itype == LIST_UINT8_TYPE {
            let len = self.read_len(reader)?;
            let mut vec: Vec<u8> = Vec::new();
            reader.read_u8_into(&mut vec, len)?;
            assert(ints(vec@).skip(0) =~= ints(vec@));
            Ok(Value::LSTU8(vec))
        } else if itype == LIST_INT8_TYPE {
            let len = self.read_len(reader)?;
            let mut vec: Vec<i8> = Vec::new();
            reader.read_i8_into(&mut vec, len)?;
            assert(ints(vec@).skip(0) =~= ints(vec@));
            Ok(Value::LSTI8(vec))
        } else if itype == LIST_UINT16_TYPE {
            let len = self.read_len(reader)?;
            let mut vec: Vec<u16> = Vec::new();
            reader.read_u16_into(&mut vec, len)?;
            assert(ints(vec@).skip(0) =~= ints(vec@));
            Ok(Value::LSTU16(vec))
        } else if itype == LIST_INT16_TYPE {
            let len = self.read_len(reader)?;
            let mut vec: Vec<i16> = Vec::new();
            reader.read_i16_into(&mut vec, len)?;
            assert(ints(vec@).skip(0) =~= ints(vec@));
            Ok(Value::LSTI16(vec))
        } else if itype == LIST_UINT32_TYPE {
            let len = self.read_len(reader)?;
            let mut vec: Vec<u32> = Vec::new();
            reader.read_u32_into(&mut vec, len)?;
            assert(ints(vec@).skip(0) =~= ints(vec@));
            Ok(Value::LSTU32(vec))
        } else if itype == LIST_INT32_TYPE {
            let len = self.read_len(reader)?;
            let mut vec: Vec<i32> = Vec::new();
            reader.read_i32_into(&mut vec, len)?;
            assert(ints(vec@).skip(0) =~= ints(vec@));
            Ok(Value::LSTI32(vec))
        } else if itype == LIST_INT64_TYPE {
            let len = self.read_len(reader)?;
            let mut vec: Vec<i64> = Vec::new();
            reader.read_i64_into(&mut vec, len)?;
            assert(ints(vec@).skip(0) =~= ints(vec@));
            Ok(Value::LSTI64(vec))
        } else if itype == LIST_UINT64_TYPE {
            let len = self.read_len(reader)?;
            let mut vec: Vec<u64> = Vec::new();
            reader.read_u64_into(&mut vec, len)?;
            assert(ints(vec@).skip(0) =~= ints(vec@));
            Ok(Value::LSTU64(vec))
        } else if itype == LIST_FLOAT32_TYPE {
            let len = self.read_len(reader)?;
            let mut vec: Vec<u32> = Vec::new();
            reader.read_f32_into(&mut vec, len)?;
            assert(ints(vec@).skip(0) =~= ints(vec@));
            Ok(Value::LSTF32(vec))
        } else if itype == LIST_FLOAT64_TYPE {
            let len = self.read_len(reader)?;
            let mut vec: Vec<u64> = Vec::new();
            reader.read_f64_into(&mut vec, len)?;
            assert(ints(vec@).skip(0) =~= ints(vec@));
            Ok(Value::LSTF64(vec))
        } else if itype == LIST_STRING_TYPE {
            let len_in_bytes = self.read_len(reader)?;
            let bytes = self.read_packed(reader, len_in_bytes)?;
            Ok(Value::LSTSTR(StrVec::from_bytes(bytes)))
        } else {
            Err(TsonError::of_kind(ErrorKind::TypeMismatch))
        }
    }
}

} // verus!
