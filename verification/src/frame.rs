//! The traversal state of the resumable encoders, stated on models: what a frame
//! has yet to write, and how much work it stands for.

use vstd::prelude::*;
use crate::elem::{encode_elems, lemma_encode_elems_concat};
use crate::error::{ErrorKind, TsonResult};
use crate::strvec::unit_end;
use crate::tags::MAX_LIST_LENGTH;
use crate::text::lemma_span;
use crate::value::Tson;
use crate::wire::{encode, encode_entries, encode_head, encode_items, encode_object, encode_payload,
    encode_string, header, lemma_encode_entries_split, lemma_encode_items_split};

verus! {

/// One value in the course of being written: the value, and the range of its
/// units that the last step wrote. A frame without a range has written nothing
/// yet, not even its tag.
pub ghost struct Frame {
    pub value: Tson,
    pub range: Option<(nat, nat)>,
}

/// The frame of a value with the range that an encoder keeps for it.
pub open spec fn frame_of(value: Tson, range: Option<(usize, usize)>) -> Frame {
    Frame {
        value,
        range: match range {
            Some((start, end)) => Some((start as nat, end as nat)),
            None => None,
        },
    }
}

/// The number of bytes that one element of a typed list takes; `None` for every
/// other value.
pub open spec fn elem_size(value: Tson) -> Option<nat> {
    match value {
        Tson::NUM(kind, _) => Some(kind.width()),
        _ => None,
    }
}

/// The payload of a value from unit `from` on. The units of a list are its
/// items, of a map its entries, of a typed list its elements, of a string list
/// its bytes.
pub open spec fn payload_from(value: Tson, from: nat) -> Seq<u8> {
    match value {
        Tson::LST(items) => encode_items(items.skip(from as int)),
        Tson::MAP(entries) => encode_entries(entries.skip(from as int)),
        Tson::NUM(kind, xs) => encode_elems(kind, xs.skip(from as int)),
        Tson::LSTSTR(bytes) => bytes.skip(from as int),
        _ => Seq::empty(),
    }
}

/// The bytes of the units of a typed list or string list from `from` up to `to`.
pub open spec fn payload_between(value: Tson, from: nat, to: nat) -> Seq<u8> {
    match value {
        Tson::NUM(kind, xs) => encode_elems(kind, xs.subrange(from as int, to as int)),
        Tson::LSTSTR(bytes) => bytes.subrange(from as int, to as int),
        _ => Seq::empty(),
    }
}

impl Frame {
    /// Whether the frame is one that can stand on the stack: a frame with a
    /// range belongs to a value that declares a length, and has units left.
    pub open spec fn wf(self) -> bool {
        match self.range {
            Some((start, end)) => match self.value.declared_len() {
                Some(len) => start <= end < len,
                None => false,
            },
            None => true,
        }
    }

    /// The bytes that the frame has yet to write.
    pub open spec fn pending(self) -> Seq<u8> {
        match self.range {
            Some((_, end)) => payload_from(self.value, end),
            None => encode_object(self.value),
        }
    }

    /// The number of steps that the frame stands for at most.
    pub open spec fn weight(self) -> nat {
        match self.range {
            Some((_, end)) => units_weight(self.value, end),
            None => value_weight(self.value),
        }
    }
}

/// The weight of a value that has written nothing yet: one for its head,
/// and the weight of its units.
pub open spec fn value_weight(value: Tson) -> nat
    decreases value, 1nat,
{
    1 + match value {
        Tson::LST(items) => items_weight(items),
        Tson::MAP(entries) => entries_weight(entries),
        Tson::NUM(_, xs) => xs.len(),
        Tson::LSTSTR(bytes) => bytes.len(),
        _ => 0,
    }
}

/// The weight of the items of a list: for each one step to reach it, and its own
/// weight.
pub open spec fn items_weight(items: Seq<Tson>) -> nat
    decreases items, 0nat,
{
    if items.len() == 0 {
        0
    } else {
        1 + value_weight(items[0]) + items_weight(items.drop_first())
    }
}

/// The weight of the entries of a map: for each one step to reach it, and the
/// weight of its value.
pub open spec fn entries_weight(entries: Seq<(Seq<char>, Tson)>) -> nat
    decreases entries, 0nat,
{
    if entries.len() == 0 {
        0
    } else {
        1 + value_weight(entries[0].1) + entries_weight(entries.drop_first())
    }
}

/// The weight of the units of a value from `from` on.
pub open spec fn units_weight(value: Tson, from: nat) -> nat {
    match value {
        Tson::LST(items) => items_weight(items.skip(from as int)),
        Tson::MAP(entries) => entries_weight(entries.skip(from as int)),
        Tson::NUM(_, xs) => (xs.len() - from) as nat,
        Tson::LSTSTR(bytes) => (bytes.len() - from) as nat,
        _ => 0,
    }
}

/// The bytes that a stack of frames has yet to write: those of the top frame,
/// which is the last, then those of the frames below it.
pub open spec fn frames_pending(frames: Seq<Frame>) -> Seq<u8>
    decreases frames.len(),
{
    if frames.len() == 0 {
        Seq::empty()
    } else {
        frames.last().pending() + frames_pending(frames.drop_last())
    }
}

/// The weight of a stack of frames.
pub open spec fn frames_weight(frames: Seq<Frame>) -> nat
    decreases frames.len(),
{
    if frames.len() == 0 {
        0
    } else {
        frames.last().weight() + frames_weight(frames.drop_last())
    }
}

/// Whether every frame of a stack can stand on it.
pub open spec fn frames_wf(frames: Seq<Frame>) -> bool {
    forall|i: int| 0 <= i < frames.len() ==> (#[trigger] frames[i]).wf()
}

/// Whether every length that the frames' values declare fits the length field.
pub open spec fn frames_fit(frames: Seq<Frame>) -> bool {
    forall|i: int| 0 <= i < frames.len() ==> (#[trigger] frames[i]).value.fits()
}

/// A frame put on the stack adds its pending bytes before the others, and its
/// weight.
pub proof fn lemma_frames_push(frames: Seq<Frame>, frame: Frame)
    ensures
        frames_pending(frames.push(frame)) == frame.pending() + frames_pending(frames),
        frames_weight(frames.push(frame)) == frame.weight() + frames_weight(frames),
        frames_wf(frames) && frame.wf() ==> frames_wf(frames.push(frame)),
        frames_fit(frames) && frame.value.fits() ==> frames_fit(frames.push(frame)),
{
    assert(frames.push(frame).drop_last() =~= frames);
}

/// Taking the top frame off the stack leaves the frames below it as they are.
pub proof fn lemma_frames_pop(frames: Seq<Frame>)
    requires
        frames.len() > 0,
    ensures
        frames_pending(frames) == frames.last().pending() + frames_pending(frames.drop_last()),
        frames_weight(frames) == frames.last().weight() + frames_weight(frames.drop_last()),
        frames_wf(frames) ==> frames.last().wf() && frames_wf(frames.drop_last()),
        frames_fit(frames) ==> frames.last().value.fits() && frames_fit(frames.drop_last()),
{
}

/// A value that has started has its payload left to write; a value without units
/// has nothing left.
pub proof fn lemma_start(value: Tson)
    ensures
        encode_object(value) == encode_head(value) + encode_payload(value),
        value.declared_len() is Some ==> payload_from(value, 0) == encode_payload(value),
        value.declared_len() is Some ==> units_weight(value, 0) + 1 == value_weight(value),
        value.declared_len() == Some(0nat) ==> encode_payload(value) == Seq::<u8>::empty(),
        value.declared_len() is None ==> value_weight(value) == 1,
{
    match value {
        Tson::LST(items) => {
            assert(items.skip(0) =~= items);
        },
        Tson::MAP(entries) => {
            assert(entries.skip(0) =~= entries);
        },
        Tson::NUM(kind, xs) => {
            assert(xs.skip(0) =~= xs);
        },
        Tson::LSTSTR(bytes) => {
            assert(bytes.skip(0) =~= bytes);
        },
        _ => {},
    }
}

/// Writing the units of a typed list or string list from `from` up to `to`
/// leaves those from `to` on.
pub proof fn lemma_advance(value: Tson, from: nat, to: nat)
    requires
        value is NUM || value is LSTSTR,
        from <= to <= value.declared_len()->Some_0,
    ensures
        payload_from(value, from) == payload_between(value, from, to) + payload_from(value, to),
        units_weight(value, from) == (to - from) + units_weight(value, to),
        to == value.declared_len()->Some_0 ==> payload_from(value, to) == Seq::<u8>::empty(),
{
    match value {
        Tson::NUM(kind, xs) => {
            assert(xs.skip(from as int) =~= xs.subrange(from as int, to as int) + xs.skip(
                to as int,
            ));
            lemma_encode_elems_concat(
                kind,
                xs.subrange(from as int, to as int),
                xs.skip(to as int),
            );
        },
        Tson::LSTSTR(bytes) => {
            assert(bytes.skip(from as int) =~= bytes.subrange(from as int, to as int) + bytes.skip(
                to as int,
            ));
        },
        _ => {},
    }
}

/// Going down into the item at `at` leaves the item, and then the items after it.
pub proof fn lemma_descend_item(items: Seq<Tson>, at: nat)
    requires
        at < items.len(),
    ensures
        payload_from(Tson::LST(items), at) == encode_object(items[at as int]) + payload_from(
            Tson::LST(items),
            at + 1,
        ),
        units_weight(Tson::LST(items), at) == 1 + value_weight(items[at as int]) + units_weight(
            Tson::LST(items),
            at + 1,
        ),
        at + 1 == items.len() ==> payload_from(Tson::LST(items), at + 1) == Seq::<u8>::empty(),
        Tson::LST(items).fits() ==> items[at as int].fits(),
{
    lemma_encode_items_split(items, at as int);
    assert(items.skip(at as int).drop_first() =~= items.skip(at as int + 1));
}

/// Going down into the entry at `at` leaves the entry's key and value, and then
/// the entries after it.
pub proof fn lemma_descend_entry(entries: Seq<(Seq<char>, Tson)>, at: nat)
    requires
        at < entries.len(),
    ensures
        payload_from(Tson::MAP(entries), at) == encode_string(entries[at as int].0)
            + encode_object(entries[at as int].1) + payload_from(Tson::MAP(entries), at + 1),
        units_weight(Tson::MAP(entries), at) == 1 + value_weight(entries[at as int].1)
            + units_weight(Tson::MAP(entries), at + 1),
        at + 1 == entries.len() ==> payload_from(Tson::MAP(entries), at + 1) == Seq::<
            u8,
        >::empty(),
        Tson::MAP(entries).fits() ==> entries[at as int].1.fits(),
{
    lemma_encode_entries_split(entries, at as int);
    assert(entries.skip(at as int).drop_first() =~= entries.skip(at as int + 1));
}

/// The head that a step writes for the top frame: the tag and length field of a
/// frame that has not started, and nothing for one that has.
pub open spec fn head_of(top: Frame) -> Seq<u8> {
    match top.range {
        Some(_) => Seq::empty(),
        None => encode_head(top.value),
    }
}

/// The unit at which the next step of a frame starts.
pub open spec fn done_of(top: Frame) -> nat {
    match top.range {
        Some((_, end)) => end,
        None => 0,
    }
}

/// The frame after a step that went on to `end`.
pub open spec fn moved_to(top: Frame, end: nat) -> Frame {
    Frame { value: top.value, range: Some((done_of(top), end)) }
}

/// The stack after a step that went on to `end`: with the frame on it while it
/// has units left.
pub open spec fn kept(below: Seq<Frame>, top: Frame, end: nat) -> Seq<Frame> {
    if end < top.value.declared_len()->Some_0 {
        below.push(moved_to(top, end))
    } else {
        below
    }
}

/// A step on a scalar writes its head and payload and drops the frame.
pub proof fn lemma_step_scalar(below: Seq<Frame>, top: Frame)
    requires
        top.wf(),
        top.value.declared_len() is None,
    ensures
        frames_pending(below.push(top)) == head_of(top) + encode_payload(top.value)
            + frames_pending(below),
        frames_weight(below) < frames_weight(below.push(top)),
{
    lemma_frames_push(below, top);
    lemma_start(top.value);
}

/// A step that writes the units of a frame up to `end`, and with them the head
/// of a frame that had not started, leaves what the stack has left to write.
#[verifier::rlimit(50)]
pub proof fn lemma_step_units(below: Seq<Frame>, top: Frame, end: nat)
    requires
        top.wf(),
        top.value.declared_len() is Some,
        done_of(top) <= end <= top.value.declared_len()->Some_0,
        top.range is Some ==> done_of(top) < end,
        top.value is NUM || top.value is LSTSTR || (end == done_of(top) && top.range is None),
    ensures
        frames_pending(below.push(top)) == head_of(top) + payload_between(
            top.value,
            done_of(top),
            end,
        ) + frames_pending(kept(below, top, end)),
        frames_weight(kept(below, top, end)) < frames_weight(below.push(top)),
        frames_wf(below) ==> frames_wf(kept(below, top, end)),
        frames_fit(below.push(top)) ==> frames_fit(kept(below, top, end)),
{
    let value = top.value;
    let from = done_of(top);
    let len = value.declared_len()->Some_0;
    let next = moved_to(top, end);
    lemma_frames_push(below, top);
    lemma_frames_push(below, next);
    lemma_frames_pop(below.push(top));
    assert(below.push(top).drop_last() =~= below);
    lemma_start(value);
    if value is NUM || value is LSTSTR {
        lemma_advance(value, from, end);
    } else {
        assert(payload_between(value, from, end) =~= Seq::<u8>::empty());
        if len == 0 {
            assert(payload_from(value, 0) =~= Seq::<u8>::empty());
        }
    }
    if end < len {
        assert(top.pending() =~= head_of(top) + payload_between(value, from, end)
            + next.pending());
    } else {
        assert(top.pending() =~= head_of(top) + payload_between(value, from, end));
        assert(frames_pending(below.push(top)) =~= head_of(top) + payload_between(
            value,
            from,
            end,
        ) + frames_pending(below));
    }
}

/// A step on a list that has items left puts the next item on the stack, above
/// the list itself while it has more items, after the head of a list that had
/// not started.
pub proof fn lemma_step_item(below: Seq<Frame>, top: Frame)
    requires
        top.wf(),
        top.value is LST,
        done_of(top) < top.value->LST_0.len(),
    ensures
        ({
            let child = Frame { value: top.value->LST_0[done_of(top) as int], range: None };
            let after = kept(below, top, done_of(top) + 1).push(child);
            &&& frames_pending(below.push(top)) == head_of(top) + frames_pending(after)
            &&& frames_weight(after) < frames_weight(below.push(top))
            &&& frames_wf(below) ==> frames_wf(after)
            &&& frames_fit(below.push(top)) ==> frames_fit(after)
        }),
{
    let items = top.value->LST_0;
    let at = done_of(top);
    let child = Frame { value: items[at as int], range: None };
    let next = moved_to(top, at + 1);
    let rest = kept(below, top, at + 1);
    lemma_descend_item(items, at);
    lemma_start(top.value);
    lemma_frames_push(below, top);
    lemma_frames_push(below, next);
    lemma_frames_push(rest, child);
    lemma_frames_pop(below.push(top));
    assert(below.push(top).drop_last() =~= below);
    assert(top.pending() =~= head_of(top) + payload_from(top.value, at));
    if at + 1 < items.len() {
        assert(frames_pending(below.push(top)) =~= head_of(top) + frames_pending(
            rest.push(child),
        ));
    } else {
        assert(top.pending() =~= head_of(top) + child.pending());
        assert(frames_pending(below.push(top)) =~= head_of(top) + frames_pending(
            rest.push(child),
        ));
    }
}

/// A step on a map that has entries left writes the next entry's key, after the
/// head of a map that had not started, and puts the entry's value on the stack,
/// above the map itself while it has more entries.
pub proof fn lemma_step_entry(below: Seq<Frame>, top: Frame)
    requires
        top.wf(),
        top.value is MAP,
        done_of(top) < top.value->MAP_0.len(),
    ensures
        ({
            let entry = top.value->MAP_0[done_of(top) as int];
            let child = Frame { value: entry.1, range: None };
            let after = kept(below, top, done_of(top) + 1).push(child);
            &&& frames_pending(below.push(top)) == head_of(top) + encode_string(entry.0)
                + frames_pending(after)
            &&& frames_weight(after) < frames_weight(below.push(top))
            &&& frames_wf(below) ==> frames_wf(after)
            &&& frames_fit(below.push(top)) ==> frames_fit(after)
        }),
{
    let entries = top.value->MAP_0;
    let at = done_of(top);
    let child = Frame { value: entries[at as int].1, range: None };
    let next = moved_to(top, at + 1);
    let rest = kept(below, top, at + 1);
    let key = encode_string(entries[at as int].0);
    lemma_descend_entry(entries, at);
    lemma_start(top.value);
    lemma_frames_push(below, top);
    lemma_frames_push(below, next);
    lemma_frames_push(rest, child);
    lemma_frames_pop(below.push(top));
    assert(below.push(top).drop_last() =~= below);
    assert(top.pending() =~= head_of(top) + payload_from(top.value, at));
    if at + 1 < entries.len() {
        assert(frames_pending(below.push(top)) =~= head_of(top) + key + frames_pending(
            rest.push(child),
        ));
    } else {
        assert(top.pending() =~= head_of(top) + key + child.pending());
        assert(frames_pending(below.push(top)) =~= head_of(top) + key + frames_pending(
            rest.push(child),
        ));
    }
}

/// The value with the unit at `at` taken out: a list whose item, or a map whose
/// entry's value, has made way for `NULL`.
pub open spec fn taken(value: Tson, at: nat) -> Tson {
    match value {
        Tson::LST(items) => Tson::LST(items.update(at as int, Tson::NULL)),
        Tson::MAP(entries) => Tson::MAP(
            entries.update(at as int, (entries[at as int].0, Tson::NULL)),
        ),
        _ => value,
    }
}

/// A frame whose unit at `at` was taken out has the same bytes left to write from
/// any later unit on, and the same weight.
pub proof fn lemma_taken(top: Frame, at: nat, end: nat)
    requires
        top.value is LST || top.value is MAP,
        at < end <= top.value.declared_len()->Some_0,
    ensures
        ({
            let next = Frame { value: top.value, range: Some((at, end)) };
            let left = Frame { value: taken(top.value, at), range: Some((at, end)) };
            &&& left.pending() == next.pending()
            &&& left.weight() == next.weight()
            &&& left.wf() == next.wf()
            &&& top.value.fits() ==> left.value.fits()
        }),
{
    match top.value {
        Tson::LST(items) => {
            let after = items.update(at as int, Tson::NULL);
            assert(after.skip(end as int) =~= items.skip(end as int));
            assert forall|i: int| 0 <= i < after.len() && Tson::LST(items).fits() implies (
            #[trigger] after[i]).fits() by {
                if i != at {
                    assert(after[i] == items[i]);
                }
            }
        },
        Tson::MAP(entries) => {
            let after = entries.update(at as int, (entries[at as int].0, Tson::NULL));
            assert(after.skip(end as int) =~= entries.skip(end as int));
            assert forall|i: int| 0 <= i < after.len() && Tson::MAP(entries).fits() implies (
            #[trigger] after[i]).1.fits() by {
                if i != at {
                    assert(after[i] == entries[i]);
                }
            }
        },
        _ => {},
    }
}

/// The stack after a step that took the unit at the frame's place out of it and
/// went on by one: with what is left of the frame on it while it has units left.
pub open spec fn kept_taken(below: Seq<Frame>, top: Frame) -> Seq<Frame> {
    let at = done_of(top);
    if at + 1 < top.value.declared_len()->Some_0 {
        below.push(Frame { value: taken(top.value, at), range: Some((at, at + 1)) })
    } else {
        below
    }
}

/// A step on a list that has items left and gives its next item away puts the
/// item on the stack, above what is left of the list while it has more items.
pub proof fn lemma_step_item_taken(below: Seq<Frame>, top: Frame)
    requires
        top.wf(),
        top.value is LST,
        done_of(top) < top.value->LST_0.len(),
    ensures
        ({
            let child = Frame { value: top.value->LST_0[done_of(top) as int], range: None };
            let after = kept_taken(below, top).push(child);
            &&& frames_pending(below.push(top)) == head_of(top) + frames_pending(after)
            &&& frames_weight(after) < frames_weight(below.push(top))
            &&& frames_wf(below) ==> frames_wf(after)
            &&& frames_fit(below.push(top)) ==> frames_fit(after)
        }),
{
    let at = done_of(top);
    let child = Frame { value: top.value->LST_0[at as int], range: None };
    let left = Frame { value: taken(top.value, at), range: Some((at, at + 1)) };
    lemma_step_item(below, top);
    lemma_taken(top, at, at + 1);
    lemma_frames_push(below, moved_to(top, at + 1));
    lemma_frames_push(below, left);
    lemma_frames_push(kept(below, top, at + 1), child);
    lemma_frames_push(kept_taken(below, top), child);
    lemma_frames_pop(below.push(top));
    assert(below.push(top).drop_last() =~= below);
}

/// A step on a map that has entries left and gives its next value away writes
/// the entry's key and puts the value on the stack, above what is left of the
/// map while it has more entries.
pub proof fn lemma_step_entry_taken(below: Seq<Frame>, top: Frame)
    requires
        top.wf(),
        top.value is MAP,
        done_of(top) < top.value->MAP_0.len(),
    ensures
        ({
            let entry = top.value->MAP_0[done_of(top) as int];
            let child = Frame { value: entry.1, range: None };
            let after = kept_taken(below, top).push(child);
            &&& frames_pending(below.push(top)) == head_of(top) + encode_string(entry.0)
                + frames_pending(after)
            &&& frames_weight(after) < frames_weight(below.push(top))
            &&& frames_wf(below) ==> frames_wf(after)
            &&& frames_fit(below.push(top)) ==> frames_fit(after)
        }),
{
    let at = done_of(top);
    let child = Frame { value: top.value->MAP_0[at as int].1, range: None };
    let left = Frame { value: taken(top.value, at), range: Some((at, at + 1)) };
    lemma_step_entry(below, top);
    lemma_taken(top, at, at + 1);
    lemma_frames_push(below, moved_to(top, at + 1));
    lemma_frames_push(below, left);
    lemma_frames_push(kept(below, top, at + 1), child);
    lemma_frames_push(kept_taken(below, top), child);
    lemma_frames_pop(below.push(top));
    assert(below.push(top).drop_last() =~= below);
}

/// The range of elements that the next step writes, for a typed list that
/// stands at `done` of `len` elements of `size` bytes with `room` bytes left in
/// the buffer's budget: as many elements as fit the room, and one at least.
pub open spec fn elems_range(room: int, size: nat, done: nat, len: nat) -> (nat, nat) {
    let fit = if room < 0 || size == 0 || room / (size as int) < 1 {
        1
    } else {
        room / (size as int)
    };
    let count = if fit < len - done {
        fit
    } else {
        len - done
    };
    (done, (done + count) as nat)
}

/// The range of units that the next step writes for `frame`, where the buffer
/// holds `buf_len` bytes of a budget of `max_buf_len`, the head of a frame that
/// has not started counted in. The range starts where the frame stands: at its
/// first unit where it has not started. A list or map goes on by one item or
/// entry, a string list by one string, a typed list by the elements that fit the
/// budget, and by one at least, even where the buffer is over its budget. A
/// frame without units left, and a scalar, write no unit.
pub open spec fn next_range(max_buf_len: nat, buf_len: nat, frame: Frame) -> (nat, nat) {
    let done = done_of(frame);
    match frame.value.declared_len() {
        Some(len) => if done < len {
            match frame.value {
                Tson::NUM(kind, _) => elems_range(max_buf_len - buf_len, kind.width(), done, len),
                Tson::LSTSTR(bytes) => (done, unit_end(bytes, done)),
                _ => (done, done + 1),
            }
        } else {
            (done, done)
        },
        None => (0, 0),
    }
}

/// The next range starts where the frame stands, ends within the value, and is
/// not empty while the frame has units left.
pub proof fn lemma_next_range(max_buf_len: nat, buf_len: nat, frame: Frame)
    requires
        frame.wf(),
    ensures
        next_range(max_buf_len, buf_len, frame).0 == done_of(frame),
        done_of(frame) <= next_range(max_buf_len, buf_len, frame).1,
        frame.value.declared_len() is Some ==> next_range(max_buf_len, buf_len, frame).1
            <= frame.value.declared_len()->Some_0,
        frame.value.declared_len() is Some && done_of(frame)
            < frame.value.declared_len()->Some_0 ==> done_of(frame) < next_range(
            max_buf_len,
            buf_len,
            frame,
        ).1,
        frame.range is Some ==> done_of(frame) < next_range(max_buf_len, buf_len, frame).1,
{
    match frame.value {
        Tson::LSTSTR(bytes) => {
            if done_of(frame) < bytes.len() {
                lemma_span(bytes.skip(done_of(frame) as int));
            }
        },
        _ => {},
    }
}

/// What one step of an encoder does: the stack that it leaves, the bytes that it
/// writes, and whether it succeeds.
pub ghost struct Step {
    pub frames: Seq<Frame>,
    pub bytes: Seq<u8>,
    pub ok: bool,
}

/// Whether a frame is about to write a length that does not fit the length
/// field.
pub open spec fn too_large(top: Frame) -> bool {
    top.range is None && match top.value.declared_len() {
        Some(len) => len > MAX_LIST_LENGTH,
        None => false,
    }
}

/// The step that an encoder takes on a stack that is not empty, where the
/// buffer holds `buf_len` bytes of a budget of `max_buf_len`. The top frame
/// writes its head where it has not started, and goes on in the same step: a
/// scalar writes its payload and leaves the stack; a typed list or a string list
/// writes its next range and stays while it has units left; a list or a map
/// that has an item or entry left puts the next one's value on the stack above
/// itself, a map after it has written the key. An encoder that owns its value
/// leaves `NULL` where the item or value was. A frame whose length does not fit
/// the length field fails the step, which then changes nothing.
#[verifier::opaque]
pub open spec fn step_of(owning: bool, max_buf_len: nat, buf_len: nat, frames: Seq<Frame>) -> Step {
    let top = frames.last();
    let below = frames.drop_last();
    let head = head_of(top);
    let range = next_range(max_buf_len, buf_len + head.len(), top);
    let rest = if owning {
        kept_taken(below, top)
    } else {
        kept(below, top, range.1)
    };
    if too_large(top) {
        Step { frames, bytes: Seq::empty(), ok: false }
    } else {
        match top.value {
            Tson::LST(items) => if range.0 < range.1 {
                Step {
                    frames: rest.push(Frame { value: items[range.0 as int], range: None }),
                    bytes: head,
                    ok: true,
                }
            } else {
                Step { frames: below, bytes: head, ok: true }
            },
            Tson::MAP(entries) => if range.0 < range.1 {
                Step {
                    frames: rest.push(Frame { value: entries[range.0 as int].1, range: None }),
                    bytes: head + encode_string(entries[range.0 as int].0),
                    ok: true,
                }
            } else {
                Step { frames: below, bytes: head, ok: true }
            },
            Tson::NUM(_, _) | Tson::LSTSTR(_) => Step {
                frames: kept(below, top, range.1),
                bytes: head + payload_between(top.value, range.0, range.1),
                ok: true,
            },
            _ => Step { frames: below, bytes: head + encode_payload(top.value), ok: true },
        }
    }
}

/// A step that succeeds writes the first of the pending bytes and leaves the
/// others pending, takes weight off the stack, and keeps the stack well formed;
/// a step fails only where a length does not fit. A step on a frame that has
/// units left writes at least one of them, or goes down into one.
#[verifier::rlimit(50)]
pub proof fn lemma_step_of(owning: bool, max_buf_len: nat, buf_len: nat, frames: Seq<Frame>)
    requires
        frames.len() > 0,
        frames_wf(frames),
    ensures
        ({
            let step = step_of(owning, max_buf_len, buf_len, frames);
            &&& step.ok ==> frames_pending(frames) == step.bytes + frames_pending(step.frames)
            &&& step.ok ==> frames_weight(step.frames) < frames_weight(frames)
            &&& frames_wf(step.frames)
            &&& frames_fit(frames) ==> step.ok && frames_fit(step.frames)
            &&& !step.ok ==> step.frames == frames && step.bytes.len() == 0
        }),
{
    reveal(step_of);
    let top = frames.last();
    let below = frames.drop_last();
    let head = head_of(top);
    let range = next_range(max_buf_len, buf_len + head.len(), top);
    assert(frames =~= below.push(top));
    lemma_frames_pop(frames);
    lemma_next_range(max_buf_len, buf_len + head.len(), top);
    if too_large(top) {
    } else {
        match top.value {
            Tson::LST(items) => {
                if range.0 < range.1 {
                    if owning {
                        lemma_step_item_taken(below, top);
                    } else {
                        lemma_step_item(below, top);
                    }
                } else {
                    lemma_step_units(below, top, range.1);
                    assert(head + payload_between(top.value, 0, 0) =~= head);
                }
            },
            Tson::MAP(entries) => {
                if range.0 < range.1 {
                    if owning {
                        lemma_step_entry_taken(below, top);
                    } else {
                        lemma_step_entry(below, top);
                    }
                } else {
                    lemma_step_units(below, top, range.1);
                    assert(head + payload_between(top.value, 0, 0) =~= head);
                }
            },
            Tson::NUM(_, _) | Tson::LSTSTR(_) => {
                lemma_step_units(below, top, range.1);
            },
            _ => {
                lemma_step_scalar(below, top);
            },
        }
    }
}

/// Progress: a step on a frame that has units left takes at least one of them.
/// It writes the elements or the string of a range that is not empty, or it
/// puts the next item or value on the stack; and it does so in the step that
/// writes the head, whatever the buffer holds.
pub proof fn lemma_step_takes_unit(
    owning: bool,
    max_buf_len: nat,
    buf_len: nat,
    frames: Seq<Frame>,
)
    requires
        frames.len() > 0,
        frames_wf(frames),
        !too_large(frames.last()),
        frames.last().value.declared_len() is Some,
        done_of(frames.last()) < frames.last().value.declared_len()->Some_0,
    ensures
        ({
            let top = frames.last();
            let step = step_of(owning, max_buf_len, buf_len, frames);
            let range = next_range(max_buf_len, buf_len + head_of(top).len(), top);
            &&& step.ok
            &&& range.0 == done_of(top)
            &&& range.0 < range.1 <= top.value.declared_len()->Some_0
            &&& match top.value {
                Tson::LST(items) => step.bytes == head_of(top) && step.frames.last() == (Frame {
                    value: items[range.0 as int],
                    range: None,
                }),
                Tson::MAP(entries) => step.bytes == head_of(top) + encode_string(
                    entries[range.0 as int].0,
                ) && step.frames.last() == (Frame {
                    value: entries[range.0 as int].1,
                    range: None,
                }),
                _ => step.bytes == head_of(top) + payload_between(top.value, range.0, range.1),
            }
        }),
{
    reveal(step_of);
    let top = frames.last();
    lemma_next_range(max_buf_len, buf_len + head_of(top).len(), top);
}

/// What one call of an encoder does after the header: step after step while
/// frames are left and the buffer holds fewer bytes than the budget, up to the
/// first step that fails. The test on the weights is there to make the definition
/// well founded; it never fails on a well-formed stack (`lemma_step_of`).
pub open spec fn run(owning: bool, max_buf_len: nat, buf_len: nat, frames: Seq<Frame>) -> Step
    decreases frames_weight(frames),
{
    if frames.len() == 0 || buf_len >= max_buf_len {
        Step { frames, bytes: Seq::empty(), ok: true }
    } else {
        let step = step_of(owning, max_buf_len, buf_len, frames);
        if step.ok && frames_weight(step.frames) < frames_weight(frames) {
            let more = run(owning, max_buf_len, buf_len + step.bytes.len(), step.frames);
            Step { frames: more.frames, bytes: step.bytes + more.bytes, ok: more.ok }
        } else {
            Step { frames: step.frames, bytes: step.bytes, ok: false }
        }
    }
}

/// A run writes the first of the pending bytes and leaves the others pending. It
/// ends with no frame left or with the buffer at its budget, unless a length does
/// not fit. It adds no weight, and takes some off where it takes a step.
#[verifier::rlimit(50)]
pub proof fn lemma_run(owning: bool, max_buf_len: nat, buf_len: nat, frames: Seq<Frame>)
    requires
        frames_wf(frames),
    ensures
        ({
            let done = run(owning, max_buf_len, buf_len, frames);
            &&& frames_pending(frames) == done.bytes + frames_pending(done.frames)
            &&& frames_wf(done.frames)
            &&& frames_fit(frames) ==> done.ok && frames_fit(done.frames)
            &&& done.ok ==> done.frames.len() == 0 || buf_len + done.bytes.len() >= max_buf_len
            &&& frames_weight(done.frames) <= frames_weight(frames)
            &&& done.ok && frames.len() > 0 && buf_len < max_buf_len ==> frames_weight(done.frames)
                < frames_weight(frames)
        }),
    decreases frames_weight(frames),
{
    if frames.len() == 0 || buf_len >= max_buf_len {
        assert(Seq::<u8>::empty() + frames_pending(frames) =~= frames_pending(frames));
    } else {
        let step = step_of(owning, max_buf_len, buf_len, frames);
        lemma_step_of(owning, max_buf_len, buf_len, frames);
        if step.ok {
            lemma_run(owning, max_buf_len, buf_len + step.bytes.len(), step.frames);
            let more = run(owning, max_buf_len, buf_len + step.bytes.len(), step.frames);
            assert(step.bytes + (more.bytes + frames_pending(more.frames)) =~= (step.bytes
                + more.bytes) + frames_pending(more.frames));
        } else {
            assert(step.bytes + frames_pending(frames) =~= frames_pending(frames));
        }
    }
}

/// What a resumable encoder is between two calls: the frames on its stack,
/// bottom first, whether the header is still to be written, and the budget past
/// which a call takes no further step.
pub ghost struct Session {
    pub frames: Seq<Frame>,
    pub fresh: bool,
    pub budget: nat,
}

impl Session {
    /// The session of a new encoder for `value`.
    pub open spec fn start(value: Tson, budget: nat) -> Session {
        Session { frames: seq![Frame { value, range: None }], fresh: true, budget }
    }

    /// What the next call writes before it takes a step: the header on the
    /// first call, and nothing after it.
    pub open spec fn opening(self) -> Seq<u8> {
        if self.fresh {
            header()
        } else {
            Seq::empty()
        }
    }

    /// The bytes that the encoder has yet to write.
    pub open spec fn pending(self) -> Seq<u8> {
        self.opening() + frames_pending(self.frames)
    }

    /// A bound on the steps that the encoder has yet to take: it falls with
    /// every step.
    pub open spec fn weight(self) -> nat {
        if self.fresh {
            1 + frames_weight(self.frames)
        } else {
            frames_weight(self.frames)
        }
    }

    /// Whether every length that is yet to be written fits the length field.
    pub open spec fn fits(self) -> bool {
        frames_fit(self.frames)
    }

    /// Whether nothing is left to write.
    pub open spec fn is_done(self) -> bool {
        !self.fresh && self.frames.len() == 0
    }

    /// What the next call does on a buffer that holds `buf_len` bytes, after the
    /// opening: the frames that it leaves, the bytes that it writes, and whether
    /// it succeeds.
    pub open spec fn call(self, owning: bool, buf_len: nat) -> Step {
        run(owning, self.budget, buf_len + self.opening().len(), self.frames)
    }

    /// The session after the next call on a buffer that holds `buf_len` bytes.
    pub open spec fn after(self, owning: bool, buf_len: nat) -> Session {
        Session { frames: self.call(owning, buf_len).frames, fresh: false, budget: self.budget }
    }
}

/// What a call of a resumable encoder owes, exactly: the session that it leaves,
/// the buffer with the opening and the bytes of the run appended, success unless
/// the run comes to a length that does not fit the length field, and then the
/// error `ValueTooLarge`.
pub open spec fn wrote_chunk(
    owning: bool,
    before: Session,
    buf: Seq<u8>,
    r: TsonResult<()>,
    after: Session,
    out: Seq<u8>,
) -> bool {
    &&& after == before.after(owning, buf.len())
    &&& out == buf + before.opening() + before.call(owning, buf.len()).bytes
    &&& r is Ok <==> before.call(owning, buf.len()).ok
    &&& r is Err ==> r->Err_0.kind == ErrorKind::ValueTooLarge
}

/// What follows for every call of a resumable encoder: the bytes that were
/// pending are the chunk and the bytes that are pending now; a call on lengths
/// that fit succeeds; a call that succeeds ends with nothing left or with the
/// buffer at its budget; no call adds weight, and a call that succeeds with room
/// in the buffer, or as the first, takes weight off.
pub open spec fn chunk_laws(
    before: Session,
    buf: Seq<u8>,
    r: TsonResult<()>,
    after: Session,
    out: Seq<u8>,
) -> bool {
    &&& buf.len() <= out.len()
    &&& out.take(buf.len() as int) == buf
    &&& before.pending() == out.skip(buf.len() as int) + after.pending()
    &&& before.fits() ==> r is Ok && after.fits()
    &&& r is Ok ==> after.is_done() || out.len() >= after.budget
    &&& after.weight() <= before.weight()
    &&& r is Ok && !before.is_done() && (before.fresh || buf.len() < before.budget)
        ==> after.weight() < before.weight()
}

/// A new session has the stream of its value pending, and is not done.
pub proof fn lemma_session_start(value: Tson, budget: nat)
    ensures
        Session::start(value, budget).pending() == encode(value),
        Session::start(value, budget).fits() == value.fits(),
        !Session::start(value, budget).is_done(),
        frames_wf(Session::start(value, budget).frames),
{
    let frame = Frame { value, range: None };
    lemma_frames_push(Seq::empty(), frame);
    assert(Seq::<Frame>::empty().push(frame) =~= seq![frame]);
    assert(frame.pending() + Seq::<u8>::empty() =~= frame.pending());
    assert(seq![frame][0] == frame);
}

/// A session that is done has no bytes pending, and no weight.
pub proof fn lemma_session_done(session: Session)
    requires
        session.is_done(),
    ensures
        session.pending().len() == 0,
        session.weight() == 0,
{
}

/// What a call owes exactly brings with it what follows for every call, and
/// leaves frames that are well formed.
pub proof fn lemma_chunk_laws(
    owning: bool,
    before: Session,
    buf: Seq<u8>,
    r: TsonResult<()>,
    after: Session,
    out: Seq<u8>,
)
    requires
        frames_wf(before.frames),
        wrote_chunk(owning, before, buf, r, after, out),
    ensures
        chunk_laws(before, buf, r, after, out),
        frames_wf(after.frames),
{
    let opening = before.opening();
    let done = before.call(owning, buf.len());
    lemma_run(owning, before.budget, buf.len() + opening.len(), before.frames);
    assert(out.take(buf.len() as int) =~= buf);
    assert(buf + opening + done.bytes =~= buf + (opening + done.bytes));
    assert((buf + (opening + done.bytes)).skip(buf.len() as int) =~= opening + done.bytes);
    assert(opening + (done.bytes + frames_pending(done.frames)) =~= opening + done.bytes
        + frames_pending(done.frames));
    assert(after.pending() =~= frames_pending(done.frames));
}

} // verus!
