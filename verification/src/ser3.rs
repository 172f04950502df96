//! The resumable encoder that owns the value: it moves each item of a list and
//! each value of a map out of its place as it goes down into it, and leaves
//! `NULL` there. Its chunks are those of the encoder that borrows the value.

use vstd::prelude::*;
use crate::elem::lemma_u8_bytes;
use crate::error::{ErrorKind, TsonError, TsonResult};
use crate::frame::{Frame, Session, chunk_laws, frame_of, frames_weight, frames_wf, head_of, kept,
    kept_taken, next_range, payload_between, run, step_of, taken, wrote_chunk, lemma_chunk_laws,
    lemma_next_range, lemma_session_start, lemma_step_of};
use crate::ser2::{ValueTypeLenSize, put_cstring, put_scalar, put_units, range_of};
use crate::ser::{put_u32_le, put_u8};
use crate::tags::{LIST_TYPE, MAP_TYPE, MAX_LIST_LENGTH, STRING_TYPE, VERSION};
use crate::text::cstring;
use crate::value::{Tson, Value, entries_of, views_of, lemma_entries_of, lemma_views_of};
use crate::wire::{encode, encode_string, header, len_field, tag_of, lemma_encode_object_len};

verus! {

/// Moves the item of a list, or the value of a map entry, at `at` out of its
/// place and leaves `NULL` there.
fn take_unit(value: &mut Value, at: usize) -> (child: Value)
    requires
        old(value)@ is LST || old(value)@ is MAP,
        at < old(value)@.declared_len()->Some_0,
    ensures
        final(value)@ == taken(old(value)@, at as nat),
        old(value)@ is LST ==> child@ == old(value)@->LST_0[at as int],
        old(value)@ is MAP ==> child@ == old(value)@->MAP_0[at as int].1,
{
    let mut child = Value::NULL;
    match value {
        Value::LST(v) => {
            let ghost held = v@;
            proof {
                lemma_views_of(held);
            }
            std::mem::swap(&mut v[at], &mut child);
            proof {
                lemma_views_of(v@);
                assert(views_of(v@) =~= views_of(held).update(at as int, Tson::NULL));
            }
        },
        Value::MAP(v) => {
            let ghost held = v@;
            proof {
                lemma_entries_of(held);
            }
            std::mem::swap(&mut v[at].1, &mut child);
            proof {
                lemma_entries_of(v@);
                assert(entries_of(v@) =~= entries_of(held).update(
                    at as int,
                    (entries_of(held)[at as int].0, Tson::NULL),
                ));
            }
        },
        _ => {},
    }
    child
}

/// One entry of the encoder's stack.
#[derive(Debug)]
pub struct SerializerStack {
    value: Value,
    range: Option<(usize, usize)>,
    value_info: ValueTypeLenSize,
}

impl SerializerStack {
    fn new(value: Value) -> (r: SerializerStack)
        ensures
            r.value == value,
            r.range is None,
            r.wf(),
    {
        let info = ValueTypeLenSize::from_value(&value);
        SerializerStack { value, range: None, value_info: info }
    }

    /// The frame that the entry stands for.
    pub closed spec fn model(self) -> Frame {
        frame_of(self.value@, self.range)
    }

    pub closed spec fn wf(self) -> bool {
        self.value_info.describes(self.value@) && self.model().wf()
    }
}

/// The frames of a stack of entries, bottom first.
pub open spec fn frames_of(stack: Seq<SerializerStack>) -> Seq<Frame> {
    Seq::new(stack.len(), |i: int| stack[i].model())
}

/// Whether every entry of a stack is well formed.
pub open spec fn stack_wf(stack: Seq<SerializerStack>) -> bool {
    forall|i: int| 0 <= i < stack.len() ==> (#[trigger] stack[i]).wf()
}

/// The encoder's state: the frames that are left to write, top last, the
/// budget of a chunk, and whether the header is still to be written.
#[derive(Debug)]
pub struct Serializer3 {
    stack: Vec<SerializerStack>,
    max_buf_len: usize,
    is_first_call: bool,
}

impl Serializer3 {
    /// The frames of the stack, bottom first.
    pub closed spec fn frames(&self) -> Seq<Frame> {
        frames_of(self.stack@)
    }

    /// Whether the encoder's state is one that `new` and `write` leave.
    pub closed spec fn wf(&self) -> bool {
        stack_wf(self.stack@) && frames_wf(frames_of(self.stack@))
    }

    /// The frames of a well-formed encoder are well formed.
    pub proof fn lemma_wf(&self)
        requires
            self.wf(),
        ensures
            frames_wf(self.frames()),
    {
    }

    /// The budget: `write` goes on while the buffer holds fewer bytes.
    pub closed spec fn budget(&self) -> usize {
        self.max_buf_len
    }

    /// Whether the header is still to be written.
    pub closed spec fn fresh(&self) -> bool {
        self.is_first_call
    }

    /// What the encoder is between two calls.
    pub open spec fn session(&self) -> Session {
        Session { frames: self.frames(), fresh: self.fresh(), budget: self.budget() as nat }
    }

    /// An encoder that owns `value` and ends a chunk once it holds `max_buf_len`
    /// bytes.
    pub fn new(max_buf_len: usize, value: Value) -> (r: Serializer3)
        ensures
            r.wf(),
            r.session() == Session::start(value@, max_buf_len as nat),
            r.session().pending() == encode(value@),
            r.session().fits() == value@.fits(),
    {
        let mut stack = Vec::new();
        stack.push(SerializerStack::new(value));
        let r = Serializer3 { max_buf_len, stack, is_first_call: true };
        proof {
            assert(r.frames() =~= seq![Frame { value: value@, range: None }]);
            lemma_session_start(value@, max_buf_len as nat);
        }
        r
    }

    /// Appends the next chunk to `buf`: the header on the first call, then what
    /// `run` says, step after step while frames are left and `buf` holds fewer
    /// bytes than the budget. The step that writes the head of a value writes
    /// its first units too. The chunks of the calls, one after the other, are
    /// the bytes that were pending. A call fails where it comes to a length that
    /// does not fit the length field, and leaves the frame of that length on the
    /// stack. With room in the buffer, or on the first call, a call that
    /// succeeds takes weight off the encoder.
    pub fn write(&mut self, buf: &mut Vec<u8>) -> (r: TsonResult<()>)
        requires
            old(self).wf(),
        ensures
            final(self).wf(),
            wrote_chunk(
                true,
                old(self).session(),
                old(buf)@,
                r,
                final(self).session(),
                final(buf)@,
            ),
            chunk_laws(old(self).session(), old(buf)@, r, final(self).session(), final(buf)@),
    {
        let ghost start = buf@;
        let ghost before = self.session();
        if self.is_first_call {
            self.is_first_call = false;
            self.add_string(buf, VERSION);
        }
        assert(buf@ =~= start + before.opening());
        let r = self.run_steps(buf);
        proof {
            lemma_chunk_laws(true, before, start, r, self.session(), buf@);
        }
        r
    }

    /// Takes step after step while frames are left and `buf` holds fewer bytes
    /// than the budget, up to the first step that fails.
    #[verifier::rlimit(50)]
    fn run_steps(&mut self, buf: &mut Vec<u8>) -> (r: TsonResult<()>)
        requires
            old(self).wf(),
        ensures
            final(self).wf(),
            final(self).budget() == old(self).budget(),
            final(self).fresh() == old(self).fresh(),
            ({
                let done = run(
                    true,
                    old(self).budget() as nat,
                    old(buf)@.len(),
                    old(self).frames(),
                );
                &&& final(self).frames() == done.frames
                &&& final(buf)@ == old(buf)@ + done.bytes
                &&& r is Ok <==> done.ok
            }),
            r is Err ==> r->Err_0.kind == ErrorKind::ValueTooLarge,
    {
        let ghost start = buf@;
        let ghost total = run(true, self.max_buf_len as nat, buf@.len(), self.frames());
        let ghost mut emitted = Seq::<u8>::empty();
        proof {
            assert(total.bytes =~= emitted + total.bytes);
            assert(buf@ =~= start + emitted);
        }
        while !self.stack.is_empty() && buf.len() < self.max_buf_len
            invariant
                self.wf(),
                self.budget() == old(self).budget(),
                self.fresh() == old(self).fresh(),
                start == old(buf)@,
                total == run(
                    true,
                    old(self).budget() as nat,
                    old(buf)@.len(),
                    old(self).frames(),
                ),
                buf@ == start + emitted,
                total.frames == run(
                    true,
                    self.max_buf_len as nat,
                    buf@.len(),
                    self.frames(),
                ).frames,
                total.bytes == emitted + run(
                    true,
                    self.max_buf_len as nat,
                    buf@.len(),
                    self.frames(),
                ).bytes,
                total.ok == run(true, self.max_buf_len as nat, buf@.len(), self.frames()).ok,
            decreases frames_weight(self.frames()),
        {
            let ghost held = buf@;
            let ghost step = step_of(true, self.max_buf_len as nat, held.len(), self.frames());
            proof {
                self.lemma_wf();
                lemma_step_of(true, self.max_buf_len as nat, held.len(), self.frames());
            }
            match self.step(buf) {
                Ok(_) => {},
                Err(e) => {
                    assert(emitted + Seq::<u8>::empty() =~= emitted);
                    return Err(e);
                },
            }
            proof {
                let left = run(true, self.max_buf_len as nat, buf@.len(), self.frames());
                assert(emitted + (step.bytes + left.bytes) =~= (emitted + step.bytes) + left.bytes);
                assert(buf@ =~= start + (emitted + step.bytes));
                emitted = emitted + step.bytes;
            }
        }
        assert(emitted + Seq::<u8>::empty() =~= emitted);
        Ok(())
    }

    /// Takes the top frame off the stack and lets it write its next units.
    #[verifier::rlimit(50)]
    fn step(&mut self, buf: &mut Vec<u8>) -> (r: TsonResult<()>)
        requires
            old(self).wf(),
            old(self).frames().len() > 0,
        ensures
            final(self).wf(),
            final(self).budget() == old(self).budget(),
            final(self).fresh() == old(self).fresh(),
            ({
                let step = step_of(
                    true,
                    old(self).budget() as nat,
                    old(buf)@.len(),
                    old(self).frames(),
                );
                &&& final(self).frames() == step.frames
                &&& final(buf)@ == old(buf)@ + step.bytes
                &&& r is Ok <==> step.ok
            }),
            r is Err ==> r->Err_0.kind == ErrorKind::ValueTooLarge,
    {
        let ghost frames = self.frames();
        let ghost start = buf@;
        match self.stack.pop() {
            Some(mut stack_value) => {
                let ghost below = self.frames();
                let ghost top = stack_value.model();
                let ghost item = top.value;
                proof {
                    reveal(step_of);
                    assert(below =~= frames.drop_last());
                    assert(top == frames.last());
                    lemma_step_of(true, self.max_buf_len as nat, start.len(), frames);
                    lemma_next_range(
                        self.max_buf_len as nat,
                        start.len() + head_of(top).len(),
                        top,
                    );
                    lemma_encode_object_len(item);
                    lemma_u8_bytes(tag_of(item));
                }
                if stack_value.range.is_none() {
                    match stack_value.value_info.len {
                        Some(len) => {
                            if len > MAX_LIST_LENGTH {
                                self.stack.push(stack_value);
                                assert(self.stack@ =~= old(self).stack@);
                                assert(buf@ =~= start + Seq::<u8>::empty());
                                return Err(TsonError::of_kind(ErrorKind::ValueTooLarge));
                            }
                            put_u8(buf, stack_value.value_info.value_type);
                            self.add_len(buf, len);
                        },
                        None => {
                            put_u8(buf, stack_value.value_info.value_type);
                        },
                    }
                }
                assert(buf@ =~= start + head_of(top));
                let range = self.get_range(buf.len(), &stack_value);
                stack_value.range = Some(range);
                match stack_value.value_info.len {
                    None => {
                        put_scalar(buf, &stack_value.value);
                    },
                    Some(len) => {
                        let value_type = stack_value.value_info.value_type;
                        let nested = value_type == LIST_TYPE || value_type == MAP_TYPE;
                        if nested && range.0 < range.1 {
                            if value_type == MAP_TYPE {
                                self.add_key(buf, &stack_value.value, range.0);
                            }
                            let child = take_unit(&mut stack_value.value, range.0);
                            assert(stack_value.model() == Frame {
                                value: taken(item, range.0 as nat),
                                range: Some((range.0 as nat, range.1 as nat)),
                            });
                            if range.1 < len {
                                self.stack.push(stack_value);
                            }
                            self.stack.push(SerializerStack::new(child));
                            proof {
                                let frame = Frame { value: child@, range: None };
                                assert(self.frames() =~= kept_taken(below, top).push(frame));
                            }
                        } else {
                            if range.0 < range.1 {
                                put_units(buf, &stack_value.value, range.0, range.1);
                            }
                            if range.1 < len {
                                self.stack.push(stack_value);
                            }
                            proof {
                                assert(payload_between(item, range.0 as nat, range.0 as nat)
                                    =~= Seq::<u8>::empty());
                                assert(self.frames() =~= kept(below, top, range.1 as nat));
                            }
                        }
                    },
                }
                Ok(())
            },
            None => Ok(()),
        }
    }

    /// The range of units that the step writes for `stack_value`, where the
    /// buffer holds `buf_len` bytes, the head of a frame that has just started
    /// counted in.
    fn get_range(&self, buf_len: usize, stack_value: &SerializerStack) -> (r: (usize, usize))
        requires
            stack_value.wf(),
        ensures
            (r.0 as nat, r.1 as nat) == next_range(
                self.budget() as nat,
                buf_len as nat,
                stack_value.model(),
            ),
            r.0 <= r.1,
            stack_value.model().value.declared_len() is Some ==> r.1
                <= stack_value.model().value.declared_len()->Some_0,
            stack_value.model().value.declared_len() is Some && r.0
                < stack_value.model().value.declared_len()->Some_0 ==> r.0 < r.1,
    {
        range_of(
            self.max_buf_len,
            buf_len,
            &stack_value.value_info,
            stack_value.range,
            &stack_value.value,
        )
    }

    /// Writes the key of the map entry at `at`.
    fn add_key(&self, buf: &mut Vec<u8>, value: &Value, at: usize)
        requires
            value@ is MAP,
            at < value@->MAP_0.len(),
        ensures
            final(buf)@ == old(buf)@ + encode_string(value@->MAP_0[at as int].0),
    {
        match value {
            Value::MAP(v) => {
                proof {
                    lemma_entries_of(v@);
                }
                self.add_string(buf, v[at].0.as_str());
            },
            _ => {},
        }
    }

    fn add_len(&self, buf: &mut Vec<u8>, len: usize)
        requires
            len <= MAX_LIST_LENGTH,
        ensures
            final(buf)@ == old(buf)@ + len_field(len as nat),
    {
        put_u32_le(buf, len as u32);
    }

    fn add_string(&self, buf: &mut Vec<u8>, value: &str)
        ensures
            final(buf)@ == old(buf)@ + encode_string(value@),
    {
        let ghost held = buf@;
        put_u8(buf, STRING_TYPE);
        self.add_cstring(buf, value);
        proof {
            lemma_u8_bytes(STRING_TYPE);
            assert(buf@ =~= held + encode_string(value@));
        }
    }

    fn add_cstring(&self, buf: &mut Vec<u8>, value: &str)
        ensures
            final(buf)@ == old(buf)@ + cstring(value@),
    {
        put_cstring(buf, value);
    }
}

} // verus!
