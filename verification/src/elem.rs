//! The element types of typed lists and the packed encoding of their elements.

use vstd::prelude::*;
use crate::le::{le_bytes, le_nat, pow256, twos, untwos, lemma_le_bytes_len, lemma_le_bytes_of_nat,
    lemma_le_nat_bound, lemma_le_nat_of_bytes, lemma_pow256_values, lemma_twos_of_untwos,
    lemma_untwos_of_twos};
use crate::tags::{LIST_FLOAT32_TYPE, LIST_FLOAT64_TYPE, LIST_INT16_TYPE, LIST_INT32_TYPE,
    LIST_INT64_TYPE, LIST_INT8_TYPE, LIST_UINT16_TYPE, LIST_UINT32_TYPE, LIST_UINT64_TYPE,
    LIST_UINT8_TYPE};

verus! {

/// The element type of a typed list. `F32` and `F64` elements are held as the bit
/// patterns of IEEE-754 numbers.
pub enum Elem {
    U8,
    I8,
    U16,
    I16,
    U32,
    I32,
    U64,
    I64,
    F32,
    F64,
}

impl Elem {
    /// The tag of a typed list of this element type.
    pub open spec fn tag(self) -> u8 {
        match self {
            Elem::U8 => LIST_UINT8_TYPE,
            Elem::I8 => LIST_INT8_TYPE,
            Elem::U16 => LIST_UINT16_TYPE,
            Elem::I16 => LIST_INT16_TYPE,
            Elem::U32 => LIST_UINT32_TYPE,
            Elem::I32 => LIST_INT32_TYPE,
            Elem::U64 => LIST_UINT64_TYPE,
            Elem::I64 => LIST_INT64_TYPE,
            Elem::F32 => LIST_FLOAT32_TYPE,
            Elem::F64 => LIST_FLOAT64_TYPE,
        }
    }

    /// The element type of the typed list with the given tag.
    pub open spec fn of_tag(tag: u8) -> Option<Elem> {
        if tag == LIST_UINT8_TYPE {
            Some(Elem::U8)
        } else if tag == LIST_INT8_TYPE {
            Some(Elem::I8)
        } else if tag == LIST_UINT16_TYPE {
            Some(Elem::U16)
        } else if tag == LIST_INT16_TYPE {
            Some(Elem::I16)
        } else if tag == LIST_UINT32_TYPE {
            Some(Elem::U32)
        } else if tag == LIST_INT32_TYPE {
            Some(Elem::I32)
        } else if tag == LIST_UINT64_TYPE {
            Some(Elem::U64)
        } else if tag == LIST_INT64_TYPE {
            Some(Elem::I64)
        } else if tag == LIST_FLOAT32_TYPE {
            Some(Elem::F32)
        } else if tag == LIST_FLOAT64_TYPE {
            Some(Elem::F64)
        } else {
            None
        }
    }

    /// The number of bytes that one element takes.
    pub open spec fn width(self) -> nat {
        match self {
            Elem::U8 | Elem::I8 => 1,
            Elem::U16 | Elem::I16 => 2,
            Elem::U32 | Elem::I32 | Elem::F32 => 4,
            Elem::U64 | Elem::I64 | Elem::F64 => 8,
        }
    }

    pub open spec fn signed(self) -> bool {
        self is I8 || self is I16 || self is I32 || self is I64
    }

    /// Whether `x` is a value of this element type.
    pub open spec fn holds(self, x: int) -> bool {
        if self.signed() {
            -(pow256(self.width()) as int) <= 2 * x < pow256(self.width())
        } else {
            0 <= x < pow256(self.width())
        }
    }

    /// The number that the bytes of `x` spell: `x` itself, or its two's complement.
    pub open spec fn code(self, x: int) -> nat {
        if self.signed() {
            twos(x, self.width())
        } else {
            x as nat
        }
    }

    /// The element whose bytes spell `n`.
    pub open spec fn value(self, n: nat) -> int {
        if self.signed() {
            untwos(n, self.width())
        } else {
            n as int
        }
    }

    /// The bytes of one element.
    pub open spec fn bytes(self, x: int) -> Seq<u8> {
        le_bytes(self.code(x), self.width())
    }

    /// The element that `bytes` hold, for `bytes` of this type's width.
    pub open spec fn of_bytes(self, bytes: Seq<u8>) -> int {
        self.value(le_nat(bytes))
    }

    /// Whether every number of `xs` is a value of this element type.
    pub open spec fn holds_all(self, xs: Seq<int>) -> bool {
        forall|i: int| 0 <= i < xs.len() ==> self.holds(#[trigger] xs[i])
    }
}

/// The numbers of a sequence of machine integers.
pub open spec fn ints<T: Integer>(s: Seq<T>) -> Seq<int> {
    Seq::new(s.len(), |i: int| s[i] as int)
}

/// The packed bytes of the elements `xs`, in order.
pub open spec fn encode_elems(kind: Elem, xs: Seq<int>) -> Seq<u8>
    decreases xs.len(),
{
    if xs.len() == 0 {
        Seq::empty()
    } else {
        kind.bytes(xs[0]) + encode_elems(kind, xs.drop_first())
    }
}

/// Reads `count` packed elements from the front of `bytes`: the elements and the
/// bytes after them, or `None` where `bytes` end before the last element does.
pub open spec fn parse_elems(kind: Elem, bytes: Seq<u8>, count: nat) -> Option<(Seq<int>, Seq<u8>)>
    decreases count,
{
    if count == 0 {
        Some((Seq::empty(), bytes))
    } else if bytes.len() < kind.width() {
        None
    } else {
        let first = kind.of_bytes(bytes.take(kind.width() as int));
        match parse_elems(kind, bytes.skip(kind.width() as int), (count - 1) as nat) {
            Some((xs, rest)) => Some((seq![first] + xs, rest)),
            None => None,
        }
    }
}

/// Reads one element of type `kind` from the front of `bytes`: the element and the
/// bytes after it, or `None` where fewer bytes are left than the element takes.
pub open spec fn parse_elem(kind: Elem, bytes: Seq<u8>) -> Option<(int, Seq<u8>)> {
    if bytes.len() < kind.width() {
        None
    } else {
        Some((kind.of_bytes(bytes.take(kind.width() as int)), bytes.skip(kind.width() as int)))
    }
}

/// The result `p` of reading elements, with `xs` put before the elements read.
pub open spec fn prepend(xs: Seq<int>, p: Option<(Seq<int>, Seq<u8>)>) -> Option<
    (Seq<int>, Seq<u8>),
> {
    match p {
        Some((ys, rest)) => Some((xs + ys, rest)),
        None => None,
    }
}

/// Reading `count` elements is reading one and then the others.
pub proof fn lemma_parse_elems_next(kind: Elem, bytes: Seq<u8>, count: nat, got: Seq<int>)
    requires
        count > 0,
    ensures
        match parse_elem(kind, bytes) {
            Some((x, rest)) => prepend(got, parse_elems(kind, bytes, count)) == prepend(
                got.push(x),
                parse_elems(kind, rest, (count - 1) as nat),
            ),
            None => parse_elems(kind, bytes, count) is None,
        },
{
    match parse_elem(kind, bytes) {
        Some((x, rest)) => {
            match parse_elems(kind, rest, (count - 1) as nat) {
                Some((xs, after)) => {
                    assert(got + (seq![x] + xs) =~= got.push(x) + xs);
                },
                None => {},
            }
        },
        None => {},
    }
}

/// The bytes of a `U8` element are the byte itself.
pub proof fn lemma_u8_bytes(byte: u8)
    ensures
        Elem::U8.bytes(byte as int) == seq![byte],
{
    reveal_with_fuel(le_bytes, 2);
    assert(Elem::U8.bytes(byte as int) =~= seq![byte]);
}

/// One element decodes to itself.
pub proof fn lemma_elem_round_trip(kind: Elem, x: int)
    requires
        kind.holds(x),
    ensures
        kind.bytes(x).len() == kind.width(),
        kind.of_bytes(kind.bytes(x)) == x,
{
    lemma_pow256_values();
    lemma_le_bytes_len(kind.code(x), kind.width());
    if kind.signed() {
        lemma_untwos_of_twos(x, kind.width());
    }
    lemma_le_nat_of_bytes(kind.code(x), kind.width());
}

/// Bytes of an element's width hold a value of the type, and are its bytes.
pub proof fn lemma_elem_of_bytes(kind: Elem, bytes: Seq<u8>)
    requires
        bytes.len() == kind.width(),
    ensures
        kind.holds(kind.of_bytes(bytes)),
        kind.bytes(kind.of_bytes(bytes)) == bytes,
{
    lemma_le_nat_bound(bytes);
    lemma_le_bytes_of_nat(bytes);
    if kind.signed() {
        lemma_twos_of_untwos(le_nat(bytes), kind.width());
    }
}

/// The bytes of a concatenation are the concatenation of the bytes.
pub proof fn lemma_encode_elems_concat(kind: Elem, xs: Seq<int>, ys: Seq<int>)
    ensures
        encode_elems(kind, xs + ys) == encode_elems(kind, xs) + encode_elems(kind, ys),
    decreases xs.len(),
{
    if xs.len() == 0 {
        assert(xs + ys =~= ys);
        assert(encode_elems(kind, xs) + encode_elems(kind, ys) =~= encode_elems(kind, ys));
    } else {
        assert((xs + ys).drop_first() =~= xs.drop_first() + ys);
        lemma_encode_elems_concat(kind, xs.drop_first(), ys);
        assert(encode_elems(kind, xs + ys) =~= encode_elems(kind, xs) + encode_elems(kind, ys));
    }
}

pub proof fn lemma_encode_elems_push(kind: Elem, xs: Seq<int>, x: int)
    ensures
        encode_elems(kind, xs.push(x)) == encode_elems(kind, xs) + kind.bytes(x),
{
    lemma_encode_elems_concat(kind, xs, seq![x]);
    assert(xs.push(x) =~= xs + seq![x]);
    assert(seq![x].drop_first() =~= Seq::<int>::empty());
    assert(encode_elems(kind, seq![x]) =~= kind.bytes(x)) by {
        reveal_with_fuel(encode_elems, 2);
    }
}

/// The bytes of the elements from `from` up to `to` are the bytes of those before
/// the element at `at`, its own, and those of the elements after it.
pub proof fn lemma_encode_elems_range(kind: Elem, xs: Seq<int>, from: int, at: int, to: int)
    requires
        0 <= from <= at < to <= xs.len(),
    ensures
        encode_elems(kind, xs.subrange(from, to)) == encode_elems(kind, xs.subrange(from, at))
            + kind.bytes(xs[at]) + encode_elems(kind, xs.subrange(at + 1, to)),
        encode_elems(kind, xs.subrange(from, at + 1)) == encode_elems(kind, xs.subrange(from, at))
            + kind.bytes(xs[at]),
{
    lemma_encode_elems_push(kind, xs.subrange(from, at), xs[at]);
    assert(xs.subrange(from, at + 1) =~= xs.subrange(from, at).push(xs[at]));
    lemma_encode_elems_concat(kind, xs.subrange(from, at + 1), xs.subrange(at + 1, to));
    assert(xs.subrange(from, to) =~= xs.subrange(from, at + 1) + xs.subrange(at + 1, to));
}

/// Two element types of one width that are both signed, or both not, pack alike.
pub proof fn lemma_encode_elems_same(a: Elem, b: Elem, xs: Seq<int>)
    requires
        a.width() == b.width(),
        a.signed() == b.signed(),
    ensures
        encode_elems(a, xs) == encode_elems(b, xs),
    decreases xs.len(),
{
    if xs.len() > 0 {
        lemma_encode_elems_same(a, b, xs.drop_first());
    }
}

/// Two element types of one width that are both signed, or both not, are read
/// alike.
pub proof fn lemma_parse_elems_same(a: Elem, b: Elem, bytes: Seq<u8>, count: nat)
    requires
        a.width() == b.width(),
        a.signed() == b.signed(),
    ensures
        parse_elems(a, bytes, count) == parse_elems(b, bytes, count),
    decreases count,
{
    if count > 0 && bytes.len() >= a.width() {
        lemma_parse_elems_same(a, b, bytes.skip(a.width() as int), (count - 1) as nat);
    }
}

/// What is left after reading elements is the input without the elements' bytes.
pub proof fn lemma_parse_elems_rest(kind: Elem, bytes: Seq<u8>, count: nat)
    requires
        parse_elems(kind, bytes, count) is Some,
    ensures
        parse_elems(kind, bytes, count)->Some_0.0.len() == count,
        count * kind.width() <= bytes.len(),
        parse_elems(kind, bytes, count)->Some_0.1 == bytes.skip((count * kind.width()) as int),
    decreases count,
{
    let w = kind.width() as int;
    if count == 0 {
        assert(bytes.skip(0) =~= bytes);
    } else {
        lemma_parse_elems_rest(kind, bytes.skip(w), (count - 1) as nat);
        assert(count * w == (count - 1) * w + w) by (nonlinear_arith);
        assert(bytes.skip(w).skip((count - 1) * w) =~= bytes.skip(count * w));
    }
}

/// The elements that are read are values of the element type.
pub proof fn lemma_parse_elems_hold(kind: Elem, bytes: Seq<u8>, count: nat)
    requires
        parse_elems(kind, bytes, count) is Some,
    ensures
        kind.holds_all(parse_elems(kind, bytes, count)->Some_0.0),
    decreases count,
{
    if count > 0 {
        let w = kind.width() as int;
        let rest = parse_elems(kind, bytes.skip(w), (count - 1) as nat)->Some_0.0;
        let xs = parse_elems(kind, bytes, count)->Some_0.0;
        lemma_elem_of_bytes(kind, bytes.take(w));
        lemma_parse_elems_hold(kind, bytes.skip(w), (count - 1) as nat);
        assert forall|i: int| 0 <= i < xs.len() implies kind.holds(#[trigger] xs[i]) by {
            if i > 0 {
                assert(xs[i] == rest[i - 1]);
            }
        }
    }
}

/// Packed elements, whatever follows them, are read back as they were.
pub proof fn lemma_parse_encode_elems(kind: Elem, xs: Seq<int>, tail: Seq<u8>)
    requires
        kind.holds_all(xs),
    ensures
        parse_elems(kind, encode_elems(kind, xs) + tail, xs.len()) == Some((xs, tail)),
    decreases xs.len(),
{
    if xs.len() == 0 {
        assert(encode_elems(kind, xs) + tail =~= tail);
    } else {
        let w = kind.width() as int;
        let all = encode_elems(kind, xs) + tail;
        let rest = xs.drop_first();
        lemma_elem_round_trip(kind, xs[0]);
        assert(all.take(w) =~= kind.bytes(xs[0]));
        assert(all.skip(w) =~= encode_elems(kind, rest) + tail);
        lemma_parse_encode_elems(kind, rest, tail);
        assert(seq![xs[0]] + rest =~= xs);
    }
}

} // verus!
