//! The structured decoder: it checks the header once and then walks maps and
//! lists in place, entry by entry, without building the whole value.
//!
//! A cursor holds the decoder that it was made from. A map cursor gives entry
//! cursors, an entry cursor gives its key and reads its value in the shape that
//! the caller asks for. Nothing checks that the value of an entry was read before
//! the next entry is asked for: the contracts say what each call reads from where
//! the decoder stands, and the caller keeps the calls in step with the input.

use vstd::prelude::*;
use crate::deser::{Deserializer, Reader, decoded};
use crate::error::{ErrorKind, TsonError, TsonResult};
use crate::tags::{LIST_TYPE, MAP_TYPE, STRING_TYPE, VERSION};
use crate::value::Value;
use crate::wire::{parse_head, parse_header, parse_len, parse_object, parse_string};

verus! {

/// The decoder: a byte source whose header has been read and checked.
pub struct TsonGDeserializer<R: Reader> {
    reader: R,
}

/// A cursor over the entries of a map: `len` entries in all, `current` of them
/// asked for.
pub struct TsonMapDeser<'a, R: Reader> {
    pub deser: &'a mut TsonGDeserializer<R>,
    pub len: usize,
    pub current: usize,
}

/// A cursor that stands before the value of a map entry, with the entry's key.
pub struct TsonMapEntryDeser<'a, R: Reader> {
    pub deser: &'a mut TsonGDeserializer<R>,
    pub key: String,
}

/// A cursor over the items of a list: `len` items in all, `current` of them
/// asked for.
pub struct TsonListDeser<'a, R: Reader> {
    pub deser: &'a mut TsonGDeserializer<R>,
    pub len: usize,
    pub current: usize,
}

/// A cursor that stands before the elements of a typed list.
pub struct TsonTypedListDeser<'a, R: Reader> {
    pub deser: &'a mut TsonGDeserializer<R>,
}

/// What reading the head of a container owes: the length and what is left as
/// `parse_head` gives them, and the error that `parse_head` gives.
pub open spec fn reads_head(
    tag: u8,
    before: Seq<u8>,
    r: TsonResult<nat>,
    after: Seq<u8>,
) -> bool {
    match r {
        Ok(len) => parse_head(tag, before) == Ok::<_, ErrorKind>((len, after)),
        Err(e) => parse_head(tag, before) == Err::<(nat, Seq<u8>), _>(e.kind),
    }
}

/// What reading a tagged string owes: the text and what is left as
/// `parse_string` gives them, and the error that `parse_string` gives.
pub open spec fn reads_string(before: Seq<u8>, r: TsonResult<Seq<char>>, after: Seq<u8>) -> bool {
    match r {
        Ok(text) => parse_string(before) == Ok::<_, ErrorKind>((text, after)),
        Err(e) => parse_string(before) == Err::<(Seq<char>, Seq<u8>), _>(e.kind),
    }
}

impl<R: Reader> TsonGDeserializer<R> {
    /// The bytes that have not been read yet.
    pub closed spec fn remaining(&self) -> Seq<u8> {
        self.reader.remaining()
    }

    /// A decoder over `reader`, whose header has been read and checked.
    pub fn new(reader: R) -> (r: TsonResult<Self>)
        ensures
            match r {
                Ok(deser) => parse_header(reader.remaining()) == Ok::<_, ErrorKind>(
                    deser.remaining(),
                ),
                Err(e) => parse_header(reader.remaining()) == Err::<Seq<u8>, _>(e.kind),
            },
    {
        let mut reader = reader;
        let itype = reader.read_u8()?;
        if itype != STRING_TYPE {
            return Err(TsonError::of_kind(ErrorKind::TypeMismatch));
        }
        let version = reader.read_string()?;
        let expected = VERSION.to_owned();
        if !version.eq(&expected) {
            return Err(TsonError::of_kind(ErrorKind::VersionMismatch));
        }
        Ok(TsonGDeserializer { reader })
    }

    pub fn read_type(&mut self) -> (r: TsonResult<u8>)
        ensures
            match r {
                Ok(b) => old(self).remaining().len() >= 1 && b == old(self).remaining()[0]
                    && final(self).remaining() == old(self).remaining().skip(1),
                Err(e) => old(self).remaining().len() == 0 && e.kind
                    == ErrorKind::UnexpectedEndOfInput,
            },
    {
        self.reader.read_u8()
    }

    pub fn read_len(&mut self) -> (r: TsonResult<usize>)
        ensures
            match r {
                Ok(len) => parse_len(old(self).remaining()) == Ok::<_, ErrorKind>(
                    (len as nat, final(self).remaining()),
                ),
                Err(e) => parse_len(old(self).remaining()) == Err::<(nat, Seq<u8>), _>(e.kind),
            },
    {
        Ok(self.reader.read_u32()? as usize)
    }

    /// Reads a string value.
    pub fn next_string(&mut self) -> (r: TsonResult<String>)
        ensures
            reads_string(
                old(self).remaining(),
                match r {
                    Ok(s) => Ok(s@),
                    Err(e) => Err(e),
                },
                final(self).remaining(),
            ),
    {
        if self.read_type()? == STRING_TYPE {
            self.reader.read_string()
        } else {
            Err(TsonError::of_kind(ErrorKind::TypeMismatch))
        }
    }

    /// Reads the head of a map and gives a cursor over its entries.
    pub fn next_map<'a>(&'a mut self) -> (r: TsonResult<TsonMapDeser<'a, R>>)
        ensures
            match r {
                Ok(cursor) => reads_head(
                    MAP_TYPE,
                    old(self).remaining(),
                    Ok(cursor.len as nat),
                    cursor.deser.remaining(),
                ) && cursor.current == 0 && *final(self) == *final(cursor.deser),
                Err(e) => reads_head(
                    MAP_TYPE,
                    old(self).remaining(),
                    Err(e),
                    final(self).remaining(),
                ),
            },
    {
        let t = self.read_type()?;
        if t == MAP_TYPE {
            TsonMapDeser::new(self)
        } else {
            Err(TsonError::of_kind(ErrorKind::TypeMismatch))
        }
    }

    /// Reads the head of a list and gives a cursor over its items.
    pub fn next_list<'a>(&'a mut self) -> (r: TsonResult<TsonListDeser<'a, R>>)
        ensures
            match r {
                Ok(cursor) => reads_head(
                    LIST_TYPE,
                    old(self).remaining(),
                    Ok(cursor.len as nat),
                    cursor.deser.remaining(),
                ) && cursor.current == 0 && *final(self) == *final(cursor.deser),
                Err(e) => reads_head(
                    LIST_TYPE,
                    old(self).remaining(),
                    Err(e),
                    final(self).remaining(),
                ),
            },
    {
        if self.read_type()? == LIST_TYPE {
            TsonListDeser::new(self)
        } else {
            Err(TsonError::of_kind(ErrorKind::TypeMismatch))
        }
    }

    /// Reads one whole value.
    pub fn next_value(&mut self) -> (r: TsonResult<Value>)
        ensures
            decoded(parse_object(old(self).remaining()), r, final(self).remaining()),
            r is Ok ==> r->Ok_0@.wf(),
    {
        Deserializer::new().read_object(&mut self.reader)
    }
}

impl<'a, R: Reader> TsonListDeser<'a, R> {
    /// Reads the length field of a list whose tag has been read.
    pub fn new(deser: &'a mut TsonGDeserializer<R>) -> (r: TsonResult<Self>)
        ensures
            match r {
                Ok(cursor) => parse_len(old(deser).remaining()) == Ok::<_, ErrorKind>(
                    (cursor.len as nat, cursor.deser.remaining()),
                ) && cursor.current == 0 && *final(deser) == *final(cursor.deser),
                Err(e) => parse_len(old(deser).remaining()) == Err::<(nat, Seq<u8>), _>(e.kind),
            },
    {
        let len = deser.read_len()?;
        Ok(TsonListDeser { deser, len, current: 0 })
    }

    pub fn len(&self) -> (len: usize)
        ensures
            len == self.len,
    {
        self.len
    }

    /// The number of items that have not been asked for yet.
    pub open spec fn left(&self) -> nat {
        (self.len - self.current) as nat
    }

    /// Reads the head of the next item as a map, where an item is left.
    pub fn next_map(&mut self) -> (r: Option<TsonResult<TsonMapDeser<'_, R>>>)
        ensures
            final(self).len == old(self).len,
            *final(final(self).deser) == *final(old(self).deser),
            match r {
                Some(Ok(cursor)) => old(self).current < old(self).len && final(self).current
                    == old(self).current + 1 && cursor.current == 0 && reads_head(
                    MAP_TYPE,
                    old(self).deser.remaining(),
                    Ok(cursor.len as nat),
                    cursor.deser.remaining(),
                ) && *final(self).deser == *final(cursor.deser),
                Some(Err(e)) => {
                    &&& old(self).current < old(self).len
                    &&& final(self).current == old(self).current + 1
                    &&& reads_head(
                        MAP_TYPE,
                        old(self).deser.remaining(),
                        Err(e),
                        final(self).deser.remaining(),
                    )
                },
                None => {
                    &&& old(self).current >= old(self).len
                    &&& final(self).current == old(self).current
                    &&& *final(self).deser == *old(self).deser
                },
            },
    {
        if self.current < self.len() {
            self.current += 1;
            Some(self.deser.next_map())
        } else {
            None
        }
    }

    /// Reads the head of the next item as a list, where an item is left.
    pub fn next_list(&mut self) -> (r: Option<TsonResult<TsonListDeser<'_, R>>>)
        ensures
            final(self).len == old(self).len,
            *final(final(self).deser) == *final(old(self).deser),
            match r {
                Some(Ok(cursor)) => old(self).current < old(self).len && final(self).current
                    == old(self).current + 1 && cursor.current == 0 && reads_head(
                    LIST_TYPE,
                    old(self).deser.remaining(),
                    Ok(cursor.len as nat),
                    cursor.deser.remaining(),
                ) && *final(self).deser == *final(cursor.deser),
                Some(Err(e)) => {
                    &&& old(self).current < old(self).len
                    &&& final(self).current == old(self).current + 1
                    &&& reads_head(
                        LIST_TYPE,
                        old(self).deser.remaining(),
                        Err(e),
                        final(self).deser.remaining(),
                    )
                },
                None => {
                    &&& old(self).current >= old(self).len
                    &&& final(self).current == old(self).current
                    &&& *final(self).deser == *old(self).deser
                },
            },
    {
        if self.current < self.len() {
            self.current += 1;
            Some(self.deser.next_list())
        } else {
            None
        }
    }

    /// Reads the next item whole, where an item is left.
    pub fn value(&mut self) -> (r: Option<TsonResult<Value>>)
        ensures
            final(self).len == old(self).len,
            *final(final(self).deser) == *final(old(self).deser),
            match r {
                Some(item) => {
                    &&& old(self).current < old(self).len
                    &&& final(self).current == old(self).current + 1
                    &&& decoded(
                        parse_object(old(self).deser.remaining()),
                        item,
                        final(self).deser.remaining(),
                    )
                },
                None => {
                    &&& old(self).current >= old(self).len
                    &&& final(self).current == old(self).current
                    &&& *final(self).deser == *old(self).deser
                },
            },
    {
        if self.current < self.len() {
            self.current += 1;
            Some(self.deser.next_value())
        } else {
            None
        }
    }
}

impl<'a, R: Reader> TsonMapDeser<'a, R> {
    /// Reads the length field of a map whose tag has been read.
    pub fn new(deser: &'a mut TsonGDeserializer<R>) -> (r: TsonResult<Self>)
        ensures
            match r {
                Ok(cursor) => parse_len(old(deser).remaining()) == Ok::<_, ErrorKind>(
                    (cursor.len as nat, cursor.deser.remaining()),
                ) && cursor.current == 0 && *final(deser) == *final(cursor.deser),
                Err(e) => parse_len(old(deser).remaining()) == Err::<(nat, Seq<u8>), _>(e.kind),
            },
    {
        let len = deser.read_len()?;
        Ok(TsonMapDeser { deser, len, current: 0 })
    }

    pub fn len(&self) -> (len: usize)
        ensures
            len == self.len,
    {
        self.len
    }

    /// The number of entries that have not been asked for yet.
    pub open spec fn left(&self) -> nat {
        (self.len - self.current) as nat
    }

    /// Reads the key of the next entry, where an entry is left, and gives a
    /// cursor that stands before the entry's value.
    pub fn next(&mut self) -> (r: Option<TsonResult<TsonMapEntryDeser<'_, R>>>)
        ensures
            final(self).len == old(self).len,
            *final(final(self).deser) == *final(old(self).deser),
            match r {
                Some(Ok(entry)) => old(self).current < old(self).len && final(self).current
                    == old(self).current + 1 && reads_string(
                    old(self).deser.remaining(),
                    Ok(entry.key@),
                    entry.deser.remaining(),
                ) && *final(self).deser == *final(entry.deser),
                Some(Err(e)) => {
                    &&& old(self).current < old(self).len
                    &&& final(self).current == old(self).current + 1
                    &&& reads_string(
                        old(self).deser.remaining(),
                        Err(e),
                        final(self).deser.remaining(),
                    )
                },
                None => {
                    &&& old(self).current >= old(self).len
                    &&& final(self).current == old(self).current
                    &&& *final(self).deser == *old(self).deser
                },
            },
    {
        if self.current < self.len() {
            self.current += 1;
            Some(TsonMapEntryDeser::new(&mut *self.deser))
        } else {
            None
        }
    }
}

impl<'a, R: Reader> TsonMapEntryDeser<'a, R> {
    /// Reads the key of an entry.
    pub fn new(deser: &'a mut TsonGDeserializer<R>) -> (r: TsonResult<Self>)
        ensures
            match r {
                Ok(entry) => reads_string(
                    old(deser).remaining(),
                    Ok(entry.key@),
                    entry.deser.remaining(),
                ) && *final(deser) == *final(entry.deser),
                Err(e) => reads_string(old(deser).remaining(), Err(e), final(deser).remaining()),
            },
    {
        let key = deser.next_string()?;
        Ok(TsonMapEntryDeser { deser, key })
    }

    pub fn key(&self) -> (key: &str)
        ensures
            key@ == self.key@,
    {
        self.key.as_str()
    }

    /// Reads the entry's value as a string.
    pub fn string(&mut self) -> (r: TsonResult<String>)
        ensures
            final(self).key == old(self).key,
            *final(final(self).deser) == *final(old(self).deser),
            reads_string(
                old(self).deser.remaining(),
                match r {
                    Ok(s) => Ok(s@),
                    Err(e) => Err(e),
                },
                final(self).deser.remaining(),
            ),
    {
        self.deser.next_string()
    }

    /// Reads the head of the entry's value as a map.
    pub fn map(&mut self) -> (r: TsonResult<TsonMapDeser<'_, R>>)
        ensures
            final(self).key == old(self).key,
            *final(final(self).deser) == *final(old(self).deser),
            match r {
                Ok(cursor) => reads_head(
                    MAP_TYPE,
                    old(self).deser.remaining(),
                    Ok(cursor.len as nat),
                    cursor.deser.remaining(),
                ) && cursor.current == 0 && *final(self).deser == *final(cursor.deser),
                Err(e) => reads_head(
                    MAP_TYPE,
                    old(self).deser.remaining(),
                    Err(e),
                    final(self).deser.remaining(),
                ),
            },
    {
        self.deser.next_map()
    }

    /// Reads the head of the entry's value as a list.
    pub fn list(&mut self) -> (r: TsonResult<TsonListDeser<'_, R>>)
        ensures
            final(self).key == old(self).key,
            *final(final(self).deser) == *final(old(self).deser),
            match r {
                Ok(cursor) => reads_head(
                    LIST_TYPE,
                    old(self).deser.remaining(),
                    Ok(cursor.len as nat),
                    cursor.deser.remaining(),
                ) && cursor.current == 0 && *final(self).deser == *final(cursor.deser),
                Err(e) => reads_head(
                    LIST_TYPE,
                    old(self).deser.remaining(),
                    Err(e),
                    final(self).deser.remaining(),
                ),
            },
    {
        self.deser.next_list()
    }

    /// Reads the entry's value whole.
    pub fn value(&mut self) -> (r: TsonResult<Value>)
        ensures
            final(self).key == old(self).key,
            *final(final(self).deser) == *final(old(self).deser),
            decoded(
                parse_object(old(self).deser.remaining()),
                r,
                final(self).deser.remaining(),
            ),
    {
        self.deser.next_value()
    }
}

} // verus!
