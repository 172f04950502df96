//! A binary codec for a JSON-like value model with typed numeric lists: a byte
//! exact wire format, a one-shot encoder and decoder, an encoder that writes a
//! value in bounded chunks, and a decoder that walks maps and lists in place.

pub mod deser;
pub mod elem;
pub mod error;
pub mod frame;
pub mod gdeser;
pub mod laws;
pub mod le;
pub mod prefix;
pub mod ser;
pub mod ser2;
pub mod ser3;
pub mod stream;
pub mod strvec;
pub mod tags;
pub mod text;
pub mod value;
pub mod wire;

use vstd::prelude::*;

pub use deser::{Deserializer, Reader, SliceReader};
pub use error::{Description, ErrorKind, TsonError, TsonResult};
pub use ser::{CountWriter, Serializer, Writer};
pub use strvec::StrVec;
pub use tags::{TsonTypedListType, VERSION};
pub use value::Value;

verus! {

/// The bytes of the stream that holds the value.
pub fn encode(value: &Value) -> (r: TsonResult<Vec<u8>>)
    ensures
        match r {
            Ok(bytes) => value@.fits() && bytes@ == wire::encode(value@),
            Err(e) => (!value@.fits() || wire::encode(value@).len() > usize::MAX) && e.kind
                == ErrorKind::ValueTooLarge,
        },
{
    let ser = Serializer::new();
    ser.encode(value)
}

/// The value that the stream given by `reader` holds, which is well formed. What
/// follows the value in the stream is not looked at.
pub fn decode<R: Reader>(reader: R) -> (r: TsonResult<Value>)
    ensures
        deser::decodes(wire::parse(reader.remaining()), r),
        r is Ok ==> r->Ok_0@.wf(),
{
    let mut cur = reader;
    let deser = Deserializer::new();
    deser.read(&mut cur)
}

/// The value that the stream `bytes` holds, which is well formed. What follows
/// the value in the stream is not looked at.
pub fn decode_bytes(bytes: &[u8]) -> (r: TsonResult<Value>)
    ensures
        deser::decodes(wire::parse(bytes@), r),
        r is Ok ==> r->Ok_0@.wf(),
{
    let deser = Deserializer::new();
    let mut cur = SliceReader::new(bytes);
    deser.read(&mut cur)
}

impl Value {
    /// The bytes of the stream that holds the value.
    pub fn to_bytes(&self) -> (r: TsonResult<Vec<u8>>)
        ensures
            match r {
                Ok(bytes) => self@.fits() && bytes@ == wire::encode(self@),
                Err(e) => (!self@.fits() || wire::encode(self@).len() > usize::MAX) && e.kind
                    == ErrorKind::ValueTooLarge,
            },
    {
        encode(self)
    }
}

} // verus!
