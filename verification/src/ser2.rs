//! The resumable encoder that reads the value through shared references: it
//! writes one value in chunks of bounded size, and the chunks one after the other
//! are the bytes that the one-shot encoder gives.

use vstd::prelude::*;
use vstd::slice::slice_subrange;
use crate::elem::{Elem, ints, lemma_encode_elems_same, lemma_u8_bytes};
use crate::error::{ErrorKind, TsonError, TsonResult};
use crate::frame::{Frame, Session, chunk_laws, elem_size, frame_of, frames_weight, frames_wf,
    head_of, kept, moved_to, next_range, payload_between, run, step_of, wrote_chunk,
    lemma_chunk_laws, lemma_next_range, lemma_session_start, lemma_step_of};
use crate::ser::{add_elems, put_i32_le, put_slice, put_u32_le, put_u64_le, put_u8};
use crate::tags::{BOOL_TYPE, DOUBLE_TYPE, INTEGER_TYPE, LIST_FLOAT32_TYPE, LIST_FLOAT64_TYPE,
    LIST_INT16_TYPE, LIST_INT32_TYPE, LIST_INT64_TYPE, LIST_INT8_TYPE, LIST_STRING_TYPE, LIST_TYPE,
    LIST_UINT16_TYPE, LIST_UINT32_TYPE, LIST_UINT64_TYPE, LIST_UINT8_TYPE, MAP_TYPE,
    MAX_LIST_LENGTH, NULL_TYPE, STRING_TYPE, VERSION};
use crate::text::cstring;
use crate::value::{Tson, Value, lemma_entries_of, lemma_views_of};
use crate::wire::{encode, encode_payload, encode_string, header, len_field, tag_of,
    lemma_encode_object_len};

verus! {

/// What the encoder needs to know of a value before it looks inside: its tag, the
/// size of one element where it is a typed list, and the length that it declares.
#[derive(Debug)]
pub struct ValueTypeLenSize {
    pub value_type: u8,
    pub value_size: Option<u8>,
    pub len: Option<usize>,
}

impl ValueTypeLenSize {
    /// Whether this is what there is to know of `value`.
    pub open spec fn describes(self, value: Tson) -> bool {
        &&& self.value_type == tag_of(value)
        &&& match self.value_size {
            Some(size) => elem_size(value) == Some(size as nat),
            None => elem_size(value) is None,
        }
        &&& match self.len {
            Some(len) => value.declared_len() == Some(len as nat),
            None => value.declared_len() is None,
        }
    }

    pub fn from_value(value: &Value) -> (r: ValueTypeLenSize)
        ensures
            r.describes(value@),
    {
        proof {
            lemma_views_of(value->LST_0@);
            lemma_entries_of(value->MAP_0@);
        }
        match value {
            Value::NULL => ValueTypeLenSize::new(NULL_TYPE, None, None),
            Value::STR(_v) => ValueTypeLenSize::new(STRING_TYPE, None, None),
            Value::I32(_v) => ValueTypeLenSize::new(INTEGER_TYPE, None, None),
            Value::F64(_v) => ValueTypeLenSize::new(DOUBLE_TYPE, None, None),
            Value::BOOL(_v) => ValueTypeLenSize::new(BOOL_TYPE, None, None),
            Value::LSTU8(v) => ValueTypeLenSize::new(LIST_UINT8_TYPE, Some(v.len()), Some(1)),
            Value::LSTI8(v) => ValueTypeLenSize::new(LIST_INT8_TYPE, Some(v.len()), Some(1)),
            Value::LSTU16(v) => ValueTypeLenSize::new(LIST_UINT16_TYPE, Some(v.len()), Some(2)),
            Value::LSTI16(v) => ValueTypeLenSize::new(LIST_INT16_TYPE, Some(v.len()), Some(2)),
            Value::LSTU32(v) => ValueTypeLenSize::new(LIST_UINT32_TYPE, Some(v.len()), Some(4)),
            Value::LSTI32(v) => ValueTypeLenSize::new(LIST_INT32_TYPE, Some(v.len()), Some(4)),
            Value::LSTU64(v) => ValueTypeLenSize::new(LIST_UINT64_TYPE, Some(v.len()), Some(8)),
            Value::LSTI64(v) => ValueTypeLenSize::new(LIST_INT64_TYPE, Some(v.len()), Some(8)),
            Value::LSTF32(v) => ValueTypeLenSize::new(LIST_FLOAT32_TYPE, Some(v.len()), Some(4)),
            Value::LSTF64(v) => ValueTypeLenSize::new(LIST_FLOAT64_TYPE, Some(v.len()), Some(8)),
            Value::LSTSTR(v) => ValueTypeLenSize::new(LIST_STRING_TYPE, Some(v.bytes.len()), None),
            Value::LST(v) => ValueTypeLenSize::new(LIST_TYPE, Some(v.len()), None),
            Value::MAP(v) => ValueTypeLenSize::new(MAP_TYPE, Some(v.len()), None),
        }
    }

    pub fn new(value_type: u8, len: Option<usize>, value_size: Option<u8>) -> (r:
        ValueTypeLenSize)
        ensures
            r.value_type == value_type,
            r.len == len,
            r.value_size == value_size,
    {
        ValueTypeLenSize { value_type, value_size, len }
    }
}

/// One entry of the encoder's stack.
#[derive(Debug)]
pub struct SerializerStack<'v> {
    value: &'v Value,
    range: Option<(usize, usize)>,
    value_info: ValueTypeLenSize,
}

impl<'v> SerializerStack<'v> {
    fn new(value: &'v Value) -> (r: SerializerStack<'v>)
        ensures
            r.value == value,
            r.range is None,
            r.wf(),
    {
        SerializerStack { value, range: None, value_info: ValueTypeLenSize::from_value(value) }
    }

    /// The frame that the entry stands for.
    pub closed spec fn model(self) -> Frame {
        frame_of(self.value@, self.range)
    }

    pub closed spec fn wf(self) -> bool {
        self.value_info.describes(self.value@) && self.model().wf()
    }
}

/// The frames of a stack of entries, bottom first.
pub open spec fn frames_of<'v>(stack: Seq<SerializerStack<'v>>) -> Seq<Frame> {
    Seq::new(stack.len(), |i: int| stack[i].model())
}

/// Whether every entry of a stack is well formed.
pub open spec fn stack_wf<'v>(stack: Seq<SerializerStack<'v>>) -> bool {
    forall|i: int| 0 <= i < stack.len() ==> (#[trigger] stack[i]).wf()
}

/// The encoder's state: the frames that are left to write, top last, the
/// budget of a chunk, and whether the header is still to be written.
#[derive(Debug)]
pub struct Serializer2<'v> {
    stack: Vec<SerializerStack<'v>>,
    max_buf_len: usize,
    is_first_call: bool,
}

impl<'v> Serializer2<'v> {
    /// The frames of the stack, bottom first.
    pub closed spec fn frames(&self) -> Seq<Frame> {
        frames_of(self.stack@)
    }

    /// Whether the encoder's state is one that `new` and `write` leave.
    pub closed spec fn wf(&self) -> bool {
        stack_wf(self.stack@) && frames_wf(frames_of(self.stack@))
    }

    /// The frames of a well-formed encoder are well formed.
    pub proof fn lemma_wf(&self)
        requires
            self.wf(),
        ensures
            frames_wf(self.frames()),
    {
    }

    /// The budget: `write` goes on while the buffer holds fewer bytes.
    pub closed spec fn budget(&self) -> usize {
        self.max_buf_len
    }

    /// Whether the header is still to be written.
    pub closed spec fn fresh(&self) -> bool {
        self.is_first_call
    }

    /// What the encoder is between two calls.
    pub open spec fn session(&self) -> Session {
        Session { frames: self.frames(), fresh: self.fresh(), budget: self.budget() as nat }
    }

    /// An encoder for `value` that ends a chunk once it holds `max_buf_len` bytes.
    pub fn new(max_buf_len: usize, value: &'v Value) -> (r: Serializer2<'v>)
        ensures
            r.wf(),
            r.session() == Session::start(value@, max_buf_len as nat),
            r.session().pending() == encode(value@),
            r.session().fits() == value@.fits(),
    {
        let mut stack = Vec::new();
        stack.push(SerializerStack::new(value));
        let r = Serializer2 { max_buf_len, stack, is_first_call: true };
        proof {
            assert(r.frames() =~= seq![Frame { value: value@, range: None }]);
            lemma_session_start(value@, max_buf_len as nat);
        }
        r
    }

    /// Appends the next chunk to `buf`: the header on the first call, then what
    /// `run` says, step after step while frames are left and `buf` holds fewer
    /// bytes than the budget. The step that writes the head of a value writes
    /// its first units too. The chunks of the calls, one after the other, are
    /// the bytes that were pending. A call fails where it comes to a length that
    /// does not fit the length field, and leaves the frame of that length on the
    /// stack. With room in the buffer, or on the first call, a call that
    /// succeeds takes weight off the encoder.
    pub fn write(&mut self, buf: &mut Vec<u8>) -> (r: TsonResult<()>)
        requires
            old(self).wf(),
        ensures
            final(self).wf(),
            wrote_chunk(
                false,
                old(self).session(),
                old(buf)@,
                r,
                final(self).session(),
                final(buf)@,
            ),
            chunk_laws(old(self).session(), old(buf)@, r, final(self).session(), final(buf)@),
    {
        let ghost start = buf@;
        let ghost before = self.session();
        if self.is_first_call {
            self.is_first_call = false;
            self.add_string(buf, VERSION);
        }
        assert(buf@ =~= start + before.opening());
        let r = self.run_steps(buf);
        proof {
            lemma_chunk_laws(false, before, start, r, self.session(), buf@);
        }
        r
    }

    /// Takes step after step while frames are left and `buf` holds fewer bytes
    /// than the budget, up to the first step that fails.
    #[verifier::rlimit(50)]
    fn run_steps(&mut self, buf: &mut Vec<u8>) -> (r: TsonResult<()>)
        requires
            old(self).wf(),
        ensures
            final(self).wf(),
            final(self).budget() == old(self).budget(),
            final(self).fresh() == old(self).fresh(),
            ({
                let done = run(
                    false,
                    old(self).budget() as nat,
                    old(buf)@.len(),
                    old(self).frames(),
                );
                &&& final(self).frames() == done.frames
                &&& final(buf)@ == old(buf)@ + done.bytes
                &&& r is Ok <==> done.ok
            }),
            r is Err ==> r->Err_0.kind == ErrorKind::ValueTooLarge,
    {
        let ghost start = buf@;
        let ghost total = run(false, self.max_buf_len as nat, buf@.len(), self.frames());
        let ghost mut emitted = Seq::<u8>::empty();
        proof {
            assert(total.bytes =~= emitted + total.bytes);
            assert(buf@ =~= start + emitted);
        }
        while !self.stack.is_empty() && buf.len() < self.max_buf_len
            invariant
                self.wf(),
                self.budget() == old(self).budget(),
                self.fresh() == old(self).fresh(),
                start == old(buf)@,
                total == run(
                    false,
                    old(self).budget() as nat,
                    old(buf)@.len(),
                    old(self).frames(),
                ),
                buf@ == start + emitted,
                total.frames == run(
                    false,
                    self.max_buf_len as nat,
                    buf@.len(),
                    self.frames(),
                ).frames,
                total.bytes == emitted + run(
                    false,
                    self.max_buf_len as nat,
                    buf@.len(),
                    self.frames(),
                ).bytes,
                total.ok == run(false, self.max_buf_len as nat, buf@.len(), self.frames()).ok,
            decreases frames_weight(self.frames()),
        {
            let ghost held = buf@;
            let ghost step = step_of(false, self.max_buf_len as nat, held.len(), self.frames());
            proof {
                self.lemma_wf();
                lemma_step_of(false, self.max_buf_len as nat, held.len(), self.frames());
            }
            match self.step(buf) {
                Ok(_) => {},
                Err(e) => {
                    assert(emitted + Seq::<u8>::empty() =~= emitted);
                    return Err(e);
                },
            }
            proof {
                let left = run(false, self.max_buf_len as nat, buf@.len(), self.frames());
                assert(emitted + (step.bytes + left.bytes) =~= (emitted + step.bytes) + left.bytes);
                assert(buf@ =~= start + (emitted + step.bytes));
                emitted = emitted + step.bytes;
            }
        }
        assert(emitted + Seq::<u8>::empty() =~= emitted);
        Ok(())
    }

    /// Takes the top frame off the stack and lets it write its next units.
    #[verifier::rlimit(50)]
    fn step(&mut self, buf: &mut Vec<u8>) -> (r: TsonResult<()>)
        requires
            old(self).wf(),
            old(self).frames().len() > 0,
        ensures
            final(self).wf(),
            final(self).budget() == old(self).budget(),
            final(self).fresh() == old(self).fresh(),
            ({
                let step = step_of(
                    false,
                    old(self).budget() as nat,
                    old(buf)@.len(),
                    old(self).frames(),
                );
                &&& final(self).frames() == step.frames
                &&& final(buf)@ == old(buf)@ + step.bytes
                &&& r is Ok <==> step.ok
            }),
            r is Err ==> r->Err_0.kind == ErrorKind::ValueTooLarge,
    {
        let ghost frames = self.frames();
        let ghost start = buf@;
        match self.stack.pop() {
            Some(mut stack_value) => {
                let ghost below = self.frames();
                let ghost top = stack_value.model();
                let ghost item = top.value;
                proof {
                    reveal(step_of);
                    assert(below =~= frames.drop_last());
                    assert(top == frames.last());
                    lemma_step_of(false, self.max_buf_len as nat, start.len(), frames);
                    lemma_next_range(
                        self.max_buf_len as nat,
                        start.len() + head_of(top).len(),
                        top,
                    );
                    lemma_encode_object_len(item);
                    lemma_u8_bytes(tag_of(item));
                }
                if stack_value.range.is_none() {
                    match stack_value.value_info.len {
                        Some(len) => {
                            if len > MAX_LIST_LENGTH {
                                self.stack.push(stack_value);
                                assert(self.stack@ =~= old(self).stack@);
                                assert(buf@ =~= start + Seq::<u8>::empty());
                                return Err(TsonError::of_kind(ErrorKind::ValueTooLarge));
                            }
                            put_u8(buf, stack_value.value_info.value_type);
                            self.add_len(buf, len);
                        },
                        None => {
                            put_u8(buf, stack_value.value_info.value_type);
                        },
                    }
                }
                assert(buf@ =~= start + head_of(top));
                let range = self.get_range(buf.len(), &stack_value);
                stack_value.range = Some(range);
                let value = stack_value.value;
                assert(stack_value.model() == moved_to(top, range.1 as nat));
                match value {
                    Value::LST(v) => {
                        proof {
                            lemma_views_of(v@);
                        }
                        if range.1 < v.len() {
                            self.stack.push(stack_value);
                        }
                        if range.0 < range.1 {
                            self.stack.push(SerializerStack::new(&v[range.0]));
                            proof {
                                let child = Frame { value: v@[range.0 as int]@, range: None };
                                assert(self.frames() =~= kept(below, top, range.1 as nat).push(
                                    child,
                                ));
                            }
                        } else {
                            proof {
                                assert(self.frames() =~= kept(below, top, range.1 as nat));
                            }
                        }
                    },
                    Value::MAP(v) => {
                        proof {
                            lemma_entries_of(v@);
                        }
                        if range.1 < v.len() {
                            self.stack.push(stack_value);
                        }
                        if range.0 < range.1 {
                            let entry = &v[range.0];
                            self.add_string(buf, entry.0.as_str());
                            self.stack.push(SerializerStack::new(&entry.1));
                            proof {
                                let child = Frame { value: v@[range.0 as int].1@, range: None };
                                assert(self.frames() =~= kept(below, top, range.1 as nat).push(
                                    child,
                                ));
                            }
                        } else {
                            proof {
                                assert(self.frames() =~= kept(below, top, range.1 as nat));
                            }
                        }
                    },
                    _ => {
                        match stack_value.value_info.len {
                            Some(len) => {
                                if range.1 < len {
                                    self.stack.push(stack_value);
                                }
                                put_units(buf, value, range.0, range.1);
                                proof {
                                    assert(self.frames() =~= kept(below, top, range.1 as nat));
                                }
                            },
                            None => {
                                put_scalar(buf, value);
                            },
                        }
                    },
                }
                Ok(())
            },
            None => Ok(()),
        }
    }

    /// The range of units that the step writes for `stack_value`, where the
    /// buffer holds `buf_len` bytes, the head of a frame that has just started
    /// counted in.
    fn get_range(&self, buf_len: usize, stack_value: &SerializerStack) -> (r: (usize, usize))
        requires
            stack_value.wf(),
        ensures
            (r.0 as nat, r.1 as nat) == next_range(
                self.budget() as nat,
                buf_len as nat,
                stack_value.model(),
            ),
            r.0 <= r.1,
            stack_value.model().value.declared_len() is Some ==> r.1
                <= stack_value.model().value.declared_len()->Some_0,
            stack_value.model().value.declared_len() is Some && r.0
                < stack_value.model().value.declared_len()->Some_0 ==> r.0 < r.1,
    {
        range_of(
            self.max_buf_len,
            buf_len,
            &stack_value.value_info,
            stack_value.range,
            stack_value.value,
        )
    }

    fn add_len(&self, buf: &mut Vec<u8>, len: usize)
        requires
            len <= MAX_LIST_LENGTH,
        ensures
            final(buf)@ == old(buf)@ + len_field(len as nat),
    {
        put_u32_le(buf, len as u32);
    }

    fn add_string(&self, buf: &mut Vec<u8>, value: &str)
        ensures
            final(buf)@ == old(buf)@ + encode_string(value@),
    {
        let ghost held = buf@;
        put_u8(buf, STRING_TYPE);
        self.add_cstring(buf, value);
        proof {
            lemma_u8_bytes(STRING_TYPE);
            assert(buf@ =~= held + encode_string(value@));
        }
    }

    fn add_cstring(&self, buf: &mut Vec<u8>, value: &str)
        ensures
            final(buf)@ == old(buf)@ + cstring(value@),
    {
        put_cstring(buf, value);
    }
}

/// Writes the payload of a scalar.
pub(crate) fn put_scalar(buf: &mut Vec<u8>, value: &Value)
    requires
        value@.declared_len() is None,
    ensures
        final(buf)@ == old(buf)@ + encode_payload(value@),
{
    let ghost held = buf@;
    match value {
        Value::STR(v) => {
            put_cstring(buf, v.as_str());
        },
        Value::I32(v) => {
            put_i32_le(buf, *v);
        },
        Value::F64(v) => {
            put_u64_le(buf, *v);
        },
        Value::BOOL(v) => {
            put_u8(
                buf,
                if *v {
                    1
                } else {
                    0
                },
            );
            proof {
                lemma_u8_bytes(0);
                lemma_u8_bytes(1);
            }
        },
        _ => {
            assert(buf@ =~= held + encode_payload(value@));
        },
    }
}

/// Writes the units of a typed list or a string list from `start` up to `end`:
/// elements of the one, bytes of the other.
pub(crate) fn put_units(buf: &mut Vec<u8>, value: &Value, start: usize, end: usize)
    requires
        value@ is NUM || value@ is LSTSTR,
        start <= end <= value@.declared_len()->Some_0,
    ensures
        final(buf)@ == old(buf)@ + payload_between(value@, start as nat, end as nat),
{
    let ghost kind = value@->NUM_0;
    match value {
        Value::LSTU8(v) => {
            let _ = add_elems(buf, v, start, end);
        },
        Value::LSTI8(v) => {
            let _ = add_elems(buf, v, start, end);
        },
        Value::LSTU16(v) => {
            let _ = add_elems(buf, v, start, end);
        },
        Value::LSTI16(v) => {
            let _ = add_elems(buf, v, start, end);
        },
        Value::LSTU32(v) => {
            let _ = add_elems(buf, v, start, end);
        },
        Value::LSTI32(v) => {
            let _ = add_elems(buf, v, start, end);
        },
        Value::LSTU64(v) => {
            let _ = add_elems(buf, v, start, end);
        },
        Value::LSTI64(v) => {
            let _ = add_elems(buf, v, start, end);
        },
        Value::LSTF32(v) => {
            proof {
                lemma_encode_elems_same(
                    Elem::U32,
                    Elem::F32,
                    ints(v@).subrange(start as int, end as int),
                );
            }
            let _ = add_elems(buf, v, start, end);
        },
        Value::LSTF64(v) => {
            proof {
                lemma_encode_elems_same(
                    Elem::U64,
                    Elem::F64,
                    ints(v@).subrange(start as int, end as int),
                );
            }
            let _ = add_elems(buf, v, start, end);
        },
        Value::LSTSTR(v) => {
            put_slice(buf, slice_subrange(v.bytes.as_slice(), start, end));
        },
        _ => {},
    }
}

/// Writes a text and its closing NUL byte.
pub(crate) fn put_cstring(buf: &mut Vec<u8>, value: &str)
    ensures
        final(buf)@ == old(buf)@ + cstring(value@),
{
    let ghost held = buf@;
    let bytes = value.as_bytes();
    let mut i: usize = 0;
    assert(held + bytes@.take(0) =~= held);
    while i < bytes.len()
        invariant
            held == old(buf)@,
            i <= bytes.len(),
            buf@ == held + bytes@.take(i as int),
        decreases bytes.len() - i,
    {
        put_u8(buf, bytes[i]);
        proof {
            lemma_u8_bytes(bytes[i as int]);
            assert(buf@ =~= held + bytes@.take(i + 1));
        }
        i += 1;
    }
    put_u8(buf, 0);
    proof {
        lemma_u8_bytes(0);
        assert(bytes@.take(bytes.len() as int) =~= bytes@);
        assert(buf@ =~= held + cstring(value@));
    }
}

/// The range of units that a step writes for a value with the given metadata and
/// progress, where the buffer holds `buf_len` bytes of a budget of
/// `max_buf_len`.
pub(crate) fn range_of(
    max_buf_len: usize,
    buf_len: usize,
    info: &ValueTypeLenSize,
    range: Option<(usize, usize)>,
    value: &Value,
) -> (r: (usize, usize))
    requires
        info.describes(value@),
        frame_of(value@, range).wf(),
    ensures
        (r.0 as nat, r.1 as nat) == next_range(
            max_buf_len as nat,
            buf_len as nat,
            frame_of(value@, range),
        ),
        r.0 <= r.1,
        value@.declared_len() is Some ==> r.1 <= value@.declared_len()->Some_0,
        value@.declared_len() is Some && r.0 < value@.declared_len()->Some_0 ==> r.0 < r.1,
{
    let len = match info.len {
        Some(len) => len,
        None => {
            return (0, 0);
        },
    };
    let n_written = match range {
        Some(range) => range.1,
        None => 0,
    };
    if n_written >= len {
        return (n_written, n_written);
    }
    match info.value_size {
        None => {
            match value {
                Value::LSTSTR(v) => (n_written, v.string_end(n_written)),
                _ => (n_written, n_written + 1),
            }
        },
        Some(value_size) => {
            let n_to_write: usize;
            if max_buf_len < buf_len {
                n_to_write = min(1, len - n_written);
            } else {
                n_to_write = min(
                    max(1, (max_buf_len - buf_len) / (value_size as usize)),
                    len - n_written,
                );
            }
            (n_written, n_written + n_to_write)
        },
    }
}

/// The smaller of two numbers.
fn min(a: usize, b: usize) -> (r: usize)
    ensures
        r == if a < b { a } else { b },
{
    if a < b {
        a
    } else {
        b
    }
}

/// The larger of two numbers.
fn max(a: usize, b: usize) -> (r: usize)
    ensures
        r == if a < b { b } else { a },
{
    if a < b {
        b
    } else {
        a
    }
}

} // verus!
