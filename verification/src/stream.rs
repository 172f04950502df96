//! The resumable encoder as a source of chunks: each call gives the next chunk,
//! and `None` once nothing is left.

use vstd::prelude::*;
use crate::frame::Session;
use crate::ser2::Serializer2;
use crate::value::Value;
use crate::wire::encode;

verus! {

/// A resumable encoder that hands out its chunks one by one.
pub struct SerializerStream<'v> {
    ser: Serializer2<'v>,
}

impl<'v> SerializerStream<'v> {
    /// The encoder that the stream drives.
    pub closed spec fn encoder(&self) -> Serializer2<'v> {
        self.ser
    }

    /// What the stream's encoder is between two calls.
    pub open spec fn session(&self) -> Session {
        self.encoder().session()
    }

    /// The bytes that the next call of the encoder writes to an empty buffer:
    /// the header on the first call, and what `run` says.
    pub open spec fn next_bytes(&self) -> Seq<u8> {
        self.session().opening() + self.session().call(false, 0).bytes
    }

    /// A stream of the chunks of `value`, each ended once it holds `max_buf_len`
    /// bytes.
    pub fn new(max_buf_len: usize, value: &'v Value) -> (r: SerializerStream<'v>)
        ensures
            r.encoder().wf(),
            r.session() == Session::start(value@, max_buf_len as nat),
            r.session().pending() == encode(value@),
            r.session().fits() == value@.fits(),
    {
        SerializerStream { ser: Serializer2::new(max_buf_len, value) }
    }

    /// The next chunk: what the encoder writes to an empty buffer.
    /// `Ok(Some(chunk))` with a chunk that is not empty, `Ok(None)` where the
    /// encoder wrote nothing, which with a budget of one byte or more is the
    /// end, and `Err(())` where the encoder came to a length that does not fit
    /// the length field. What the encoder wrote in a call that failed is
    /// dropped.
    pub fn next_chunk(&mut self) -> (r: Result<Option<Vec<u8>>, ()>)
        requires
            old(self).encoder().wf(),
        ensures
            final(self).encoder().wf(),
            final(self).session() == old(self).session().after(false, 0),
            r is Ok <==> old(self).session().call(false, 0).ok,
            match r {
                Ok(Some(chunk)) => chunk@.len() > 0 && chunk@ == old(self).next_bytes(),
                Ok(None) => old(self).next_bytes().len() == 0,
                Err(_) => true,
            },
            r is Ok ==> old(self).session().pending() == old(self).next_bytes()
                + final(self).session().pending(),
            old(self).session().fits() ==> r is Ok && final(self).session().fits(),
            r == Ok::<Option<Vec<u8>>, ()>(None) && old(self).session().budget >= 1
                ==> final(self).session().is_done(),
            final(self).session().weight() <= old(self).session().weight(),
            r is Ok && !old(self).session().is_done() && old(self).session().budget >= 1
                ==> final(self).session().weight() < old(self).session().weight(),
    {
        let mut buf: Vec<u8> = Vec::new();
        let ghost written = self.next_bytes();
        let r = self.ser.write(&mut buf);
        proof {
            assert(buf@.skip(0) =~= buf@);
            assert(buf@ =~= written);
        }
        match r {
            Ok(_) => {
                if buf.is_empty() {
                    Ok(None)
                } else {
                    Ok(Some(buf))
                }
            },
            Err(_e) => Err(()),
        }
    }
}

} // verus!
