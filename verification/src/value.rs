//! The values that the codec carries, and their mathematical model.

use vstd::prelude::*;
use crate::elem::{Elem, ints};
use crate::error::{ErrorKind, TsonError, TsonResult};
use crate::strvec::{StrVec, well_packed};
use crate::tags::MAX_LIST_LENGTH;
use crate::text::plain;

verus! {

/// A value. `F64` holds the bit pattern of an IEEE-754 number, `LSTF32` and
/// `LSTF64` hold bit patterns too. A map is a vector of entries in the order in
/// which they are written; its keys are meant to differ from one another.
#[derive(Debug, PartialEq)]
pub enum Value {
    NULL,
    STR(String),
    I32(i32),
    F64(u64),
    BOOL(bool),
    LST(Vec<Value>),
    MAP(Vec<(String, Value)>),
    LSTU8(Vec<u8>),
    LSTI8(Vec<i8>),
    LSTU16(Vec<u16>),
    LSTI16(Vec<i16>),
    LSTU32(Vec<u32>),
    LSTI32(Vec<i32>),
    LSTU64(Vec<u64>),
    LSTI64(Vec<i64>),
    LSTF32(Vec<u32>),
    LSTF64(Vec<u64>),
    LSTSTR(StrVec),
}

/// What a value is, apart from how it is held in memory. The ten typed lists
/// are one case: the element type and the numbers.
pub ghost enum Tson {
    NULL,
    STR(Seq<char>),
    I32(i32),
    F64(u64),
    BOOL(bool),
    LST(Seq<Tson>),
    MAP(Seq<(Seq<char>, Tson)>),
    NUM(Elem, Seq<int>),
    LSTSTR(Seq<u8>),
}

impl View for Value {
    type V = Tson;

    open spec fn view(&self) -> Tson {
        self.model()
    }
}

impl Value {
    /// What the value is.
    pub open spec fn model(&self) -> Tson
        decreases self,
    {
        match self {
            Value::NULL => Tson::NULL,
            Value::STR(s) => Tson::STR(s@),
            Value::I32(v) => Tson::I32(*v),
            Value::F64(v) => Tson::F64(*v),
            Value::BOOL(v) => Tson::BOOL(*v),
            Value::LST(v) => Tson::LST(views_of(v@)),
            Value::MAP(v) => Tson::MAP(entries_of(v@)),
            Value::LSTU8(v) => Tson::NUM(Elem::U8, ints(v@)),
            Value::LSTI8(v) => Tson::NUM(Elem::I8, ints(v@)),
            Value::LSTU16(v) => Tson::NUM(Elem::U16, ints(v@)),
            Value::LSTI16(v) => Tson::NUM(Elem::I16, ints(v@)),
            Value::LSTU32(v) => Tson::NUM(Elem::U32, ints(v@)),
            Value::LSTI32(v) => Tson::NUM(Elem::I32, ints(v@)),
            Value::LSTU64(v) => Tson::NUM(Elem::U64, ints(v@)),
            Value::LSTI64(v) => Tson::NUM(Elem::I64, ints(v@)),
            Value::LSTF32(v) => Tson::NUM(Elem::F32, ints(v@)),
            Value::LSTF64(v) => Tson::NUM(Elem::F64, ints(v@)),
            Value::LSTSTR(v) => Tson::LSTSTR(v@),
        }
    }
}

/// The models of a sequence of values.
pub open spec fn views_of(values: Seq<Value>) -> Seq<Tson>
    decreases values,
{
    if values.len() == 0 {
        Seq::empty()
    } else {
        views_of(values.drop_last()).push(values.last().model())
    }
}

/// The models of a sequence of map entries.
pub open spec fn entries_of(entries: Seq<(String, Value)>) -> Seq<(Seq<char>, Tson)>
    decreases entries,
{
    if entries.len() == 0 {
        Seq::empty()
    } else {
        entries_of(entries.drop_last()).push((entries.last().0@, entries.last().1.model()))
    }
}

/// The models of values are as many as the values, each the model of its value.
pub proof fn lemma_views_of(values: Seq<Value>)
    ensures
        views_of(values).len() == values.len(),
        forall|i: int| 0 <= i < values.len() ==> (#[trigger] views_of(values)[i]) == values[i]@,
    decreases values.len(),
{
    if values.len() > 0 {
        lemma_views_of(values.drop_last());
    }
}

/// The models of entries are as many as the entries, each the key's text and the
/// model of the value.
pub proof fn lemma_entries_of(entries: Seq<(String, Value)>)
    ensures
        entries_of(entries).len() == entries.len(),
        forall|i: int|
            0 <= i < entries.len() ==> (#[trigger] entries_of(entries)[i]) == (
                entries[i].0@,
                entries[i].1@,
            ),
    decreases entries.len(),
{
    if entries.len() > 0 {
        lemma_entries_of(entries.drop_last());
    }
}

/// Whether no two entries have the same key.
pub open spec fn distinct_keys(entries: Seq<(Seq<char>, Tson)>) -> bool {
    forall|i: int, j: int|
        0 <= i < entries.len() && 0 <= j < entries.len() && i != j ==> entries[i].0
            != entries[j].0
}

impl Tson {
    /// The length that the value declares on the wire: the number of items,
    /// entries or elements, and for a string list the number of bytes. A scalar
    /// declares none.
    pub open spec fn declared_len(self) -> Option<nat> {
        match self {
            Tson::LST(items) => Some(items.len()),
            Tson::MAP(entries) => Some(entries.len()),
            Tson::NUM(_, xs) => Some(xs.len()),
            Tson::LSTSTR(bytes) => Some(bytes.len()),
            _ => None,
        }
    }

    /// Whether every length that the value declares, at any depth, fits the
    /// four-byte length field.
    pub open spec fn fits(self) -> bool
        decreases self,
    {
        match self {
            Tson::LST(items) => items.len() <= MAX_LIST_LENGTH && forall|i: int|
                0 <= i < items.len() ==> (#[trigger] items[i]).fits(),
            Tson::MAP(entries) => entries.len() <= MAX_LIST_LENGTH && forall|i: int|
                0 <= i < entries.len() ==> (#[trigger] entries[i]).1.fits(),
            Tson::NUM(_, xs) => xs.len() <= MAX_LIST_LENGTH,
            Tson::LSTSTR(bytes) => bytes.len() <= MAX_LIST_LENGTH,
            _ => true,
        }
    }

    /// Whether the value is one that the wire format can carry and give back:
    /// its lengths fit, its texts hold no NUL byte, the keys of each map differ,
    /// the numbers of a typed list are values of its element type, and a string
    /// list is text fields and nothing else.
    pub open spec fn wf(self) -> bool
        decreases self,
    {
        match self {
            Tson::STR(text) => plain(text),
            Tson::LST(items) => items.len() <= MAX_LIST_LENGTH && forall|i: int|
                0 <= i < items.len() ==> (#[trigger] items[i]).wf(),
            Tson::MAP(entries) => {
                &&& entries.len() <= MAX_LIST_LENGTH
                &&& distinct_keys(entries)
                &&& forall|i: int|
                    0 <= i < entries.len() ==> plain((#[trigger] entries[i]).0) && entries[i].1.wf()
            },
            Tson::NUM(kind, xs) => xs.len() <= MAX_LIST_LENGTH && kind.holds_all(xs),
            Tson::LSTSTR(bytes) => bytes.len() <= MAX_LIST_LENGTH && well_packed(bytes),
            _ => true,
        }
    }
}

/// A copy of a vector of plain numbers.
fn copy_of<T: Copy>(v: &Vec<T>) -> (r: Vec<T>)
    ensures
        r@ == v@,
{
    let mut r: Vec<T> = Vec::with_capacity(v.len());
    let mut i: usize = 0;
    while i < v.len()
        invariant
            i <= v.len(),
            r@ == v@.take(i as int),
        decreases v.len() - i,
    {
        r.push(v[i]);
        i += 1;
        assert(r@ =~= v@.take(i as int));
    }
    assert(v@.take(v.len() as int) =~= v@);
    r
}

impl Clone for Value {
    /// A deep copy: a value with the same model.
    fn clone(&self) -> (r: Value)
        ensures
            r@ == self@,
        decreases self,
    {
        match self {
            Value::NULL => Value::NULL,
            Value::STR(s) => Value::STR(s.clone()),
            Value::I32(v) => Value::I32(*v),
            Value::F64(v) => Value::F64(*v),
            Value::BOOL(v) => Value::BOOL(*v),
            Value::LST(v) => {
                let mut items: Vec<Value> = Vec::with_capacity(v.len());
                let mut i: usize = 0;
                while i < v.len()
                    invariant
                        *self == Value::LST(*v),
                        i <= v.len(),
                        views_of(items@) == views_of(v@.take(i as int)),
                    decreases v.len() - i,
                {
                    let item = &v[i];
                    assert(decreases_to!(self->LST_0 => v[i as int]));
                    let copy = item.clone();
                    let ghost held = items@;
                    items.push(copy);
                    proof {
                        assert(items@.drop_last() =~= held);
                        assert(v@.take(i + 1).drop_last() =~= v@.take(i as int));
                    }
                    i += 1;
                }
                assert(v@.take(v.len() as int) =~= v@);
                Value::LST(items)
            },
            Value::MAP(v) => {
                let mut entries: Vec<(String, Value)> = Vec::with_capacity(v.len());
                let mut i: usize = 0;
                while i < v.len()
                    invariant
                        *self == Value::MAP(*v),
                        i <= v.len(),
                        entries_of(entries@) == entries_of(v@.take(i as int)),
                    decreases v.len() - i,
                {
                    let entry = &v[i];
                    assert(decreases_to!(self->MAP_0 => v[i as int]));
                    let copy = entry.1.clone();
                    let ghost held = entries@;
                    entries.push((entry.0.clone(), copy));
                    proof {
                        assert(entries@.drop_last() =~= held);
                        assert(v@.take(i + 1).drop_last() =~= v@.take(i as int));
                    }
                    i += 1;
                }
                assert(v@.take(v.len() as int) =~= v@);
                Value::MAP(entries)
            },
            Value::LSTU8(v) => Value::LSTU8(copy_of(v)),
            Value::LSTI8(v) => Value::LSTI8(copy_of(v)),
            Value::LSTU16(v) => Value::LSTU16(copy_of(v)),
            Value::LSTI16(v) => Value::LSTI16(copy_of(v)),
            Value::LSTU32(v) => Value::LSTU32(copy_of(v)),
            Value::LSTI32(v) => Value::LSTI32(copy_of(v)),
            Value::LSTU64(v) => Value::LSTU64(copy_of(v)),
            Value::LSTI64(v) => Value::LSTI64(copy_of(v)),
            Value::LSTF32(v) => Value::LSTF32(copy_of(v)),
            Value::LSTF64(v) => Value::LSTF64(copy_of(v)),
            Value::LSTSTR(v) => Value::LSTSTR(StrVec { bytes: copy_of(&v.bytes) }),
        }
    }
}

impl Value {
    pub fn to_str(&self) -> (r: TsonResult<&str>)
        ensures
            match r {
                Ok(s) => self@ == Tson::STR(s@),
                Err(e) => !(self@ is STR) && e.kind == ErrorKind::TypeMismatch,
            },
    {
        match self {
            Value::STR(v) => Ok(v.as_str()),
            _ => Err(TsonError::of_kind(ErrorKind::TypeMismatch)),
        }
    }

    pub fn to_map(&self) -> (r: TsonResult<&Vec<(String, Value)>>)
        ensures
            match r {
                Ok(v) => *self == Value::MAP(*v),
                Err(e) => !(self@ is MAP) && e.kind == ErrorKind::TypeMismatch,
            },
    {
        match self {
            Value::MAP(v) => Ok(v),
            _ => Err(TsonError::of_kind(ErrorKind::TypeMismatch)),
        }
    }

    pub fn to_list(&self) -> (r: TsonResult<&Vec<Value>>)
        ensures
            match r {
                Ok(v) => *self == Value::LST(*v),
                Err(e) => !(self@ is LST) && e.kind == ErrorKind::TypeMismatch,
            },
    {
        match self {
            Value::LST(v) => Ok(v),
            _ => Err(TsonError::of_kind(ErrorKind::TypeMismatch)),
        }
    }
}

} // verus!
