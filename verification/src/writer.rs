//! The writing end of the conversion pipeline.
//!
//! Frames are extracted in parallel and arrive in any order. The writer holds
//! each arrival until every frame before it has been written, so that the
//! stream carries the frames in the order of their numbers: 0, 1, 2, ...

use crate::codec::{encode_frame, frame_bytes, frames_bytes};
use crate::rect::PixelRect;
use std::collections::HashMap;
use vstd::prelude::*;
use vstd::std_specs::hash::*;

verus! {

broadcast use vstd::std_specs::hash::group_hash_axioms;

/// A frame after extraction: its number, its rectangles, and the pixel buffer
/// it was read into, which goes back to the reader.
pub struct ProcessedFrame {
    pub id: u64,
    pub rects: Vec<PixelRect>,
    pub recycled_buffer: Vec<u8>,
}

/// An arrival at the writer, as the contracts see it.
pub struct Arrival {
    pub id: u64,
    pub rects: Seq<PixelRect>,
}

/// The writer's state, as the contracts see it: the number of the next frame
/// to write, and the frames that wait for it.
pub struct WriterModel {
    pub next: int,
    pub pending: Map<u64, Seq<PixelRect>>,
}

/// How many frames can be written in a row, starting with number `next`.
/// Frame numbers stop short of `u64::MAX`.
pub open spec fn run_len(pending: Map<u64, Seq<PixelRect>>, next: int) -> nat
    decreases u64::MAX - next,
{
    if 0 <= next < u64::MAX && pending.contains_key(next as u64) {
        1 + run_len(pending, next + 1)
    } else {
        0
    }
}

/// The `count` waiting frames numbered from `next` on, in order.
pub open spec fn burst(pending: Map<u64, Seq<PixelRect>>, next: int, count: nat) -> Seq<Arrival> {
    Seq::new(count, |i: int| Arrival { id: (next + i) as u64, rects: pending[(next + i) as u64] })
}

/// The rectangle lists of a sequence of frames.
pub open spec fn rects_of(frames: Seq<Arrival>) -> Seq<Seq<PixelRect>> {
    Seq::new(frames.len(), |i: int| frames[i].rects)
}

/// The frame numbers from `from` up to `to`.
pub open spec fn numbers(from: int, to: int) -> Set<u64> {
    Set::new(|key: u64| from <= key < to)
}

impl WriterModel {
    /// Nothing written, nothing waiting.
    pub open spec fn init() -> WriterModel {
        WriterModel { next: 0, pending: Map::empty() }
    }

    /// The frames written when frame `id` arrives: those numbered from `next`
    /// on that are then at hand, in order.
    pub open spec fn emitted(self, id: u64, rects: Seq<PixelRect>) -> Seq<Arrival> {
        let stored = self.pending.insert(id, rects);
        burst(stored, self.next, run_len(stored, self.next))
    }

    /// The state after frame `id` has arrived: the frames written have left.
    pub open spec fn accept(self, id: u64, rects: Seq<PixelRect>) -> WriterModel {
        let stored = self.pending.insert(id, rects);
        let count = run_len(stored, self.next);
        WriterModel {
            next: self.next + count,
            pending: stored.remove_keys(numbers(self.next, self.next + count)),
        }
    }
}

/// The state after a sequence of arrivals, from the start.
pub open spec fn after(arrivals: Seq<Arrival>) -> WriterModel
    decreases arrivals.len(),
{
    if arrivals.len() == 0 {
        WriterModel::init()
    } else {
        after(arrivals.drop_last()).accept(arrivals.last().id, arrivals.last().rects)
    }
}

/// The frames written over a sequence of arrivals, in the order in which they
/// were written.
pub open spec fn written(arrivals: Seq<Arrival>) -> Seq<Arrival>
    decreases arrivals.len(),
{
    if arrivals.len() == 0 {
        Seq::empty()
    } else {
        written(arrivals.drop_last()) + after(arrivals.drop_last()).emitted(
            arrivals.last().id,
            arrivals.last().rects,
        )
    }
}

/// Frame `id` is among the arrivals.
pub open spec fn received(arrivals: Seq<Arrival>, id: int) -> bool {
    exists|j: int| 0 <= j < arrivals.len() && (#[trigger] arrivals[j]).id == id
}

/// No frame number arrives twice.
pub open spec fn distinct(arrivals: Seq<Arrival>) -> bool {
    forall|i: int, j: int|
        0 <= i < j < arrivals.len() ==> (#[trigger] arrivals[i]).id != (#[trigger] arrivals[j]).id
}

/// What holds of the state after any sequence of arrivals.
spec fn consistent(arrivals: Seq<Arrival>, m: WriterModel) -> bool {
    &&& 0 <= m.next <= u64::MAX
    &&& forall|id: int| 0 <= id < m.next ==> received(arrivals, id)
    &&& forall|key: u64|
        #[trigger] m.pending.contains_key(key) ==> exists|j: int|
            0 <= j < arrivals.len() && (#[trigger] arrivals[j]).id == key && arrivals[j].rects
                == m.pending[key]
    &&& forall|key: u64|
        received(arrivals, key as int) && key >= m.next ==> #[trigger] m.pending.contains_key(key)
    &&& m.next < u64::MAX ==> !m.pending.contains_key(m.next as u64)
}

/// A run of waiting frames is at hand from its first to its last frame, and
/// ends where a frame is missing or the numbers run out.
proof fn lemma_run_len(pending: Map<u64, Seq<PixelRect>>, next: int)
    requires
        0 <= next <= u64::MAX,
    ensures
        next + run_len(pending, next) <= u64::MAX,
        forall|i: int|
            0 <= i < run_len(pending, next) ==> #[trigger] pending.contains_key((next + i) as u64),
        next + run_len(pending, next) < u64::MAX ==> !pending.contains_key(
            (next + run_len(pending, next)) as u64,
        ),
    decreases u64::MAX - next,
{
    if next < u64::MAX && pending.contains_key(next as u64) {
        lemma_run_len(pending, next + 1);
        assert forall|i: int| 0 <= i < run_len(pending, next) implies #[trigger] pending.contains_key(
            (next + i) as u64,
        ) by {
            if i > 0 {
                assert(pending.contains_key(((next + 1) + (i - 1)) as u64));
            }
        }
    }
}

/// A run splits at any frame inside it.
proof fn lemma_run_len_split(pending: Map<u64, Seq<PixelRect>>, next: int, done: nat)
    requires
        0 <= next,
        next + done <= u64::MAX,
        forall|i: int| 0 <= i < done ==> #[trigger] pending.contains_key((next + i) as u64),
    ensures
        run_len(pending, next) == done + run_len(pending, next + done),
    decreases done,
{
    if done > 0 {
        assert(pending.contains_key((next + 0) as u64));
        assert forall|i: int| 0 <= i < done - 1 implies #[trigger] pending.contains_key(
            ((next + 1) + i) as u64,
        ) by {
            assert(pending.contains_key((next + (i + 1)) as u64));
        }
        lemma_run_len_split(pending, next + 1, (done - 1) as nat);
    }
}

/// One more arrival keeps the state consistent.
proof fn lemma_accept_consistent(arrivals: Seq<Arrival>, m: WriterModel, a: Arrival)
    requires
        consistent(arrivals, m),
    ensures
        consistent(arrivals.push(a), m.accept(a.id, a.rects)),
{
    let more = arrivals.push(a);
    let stored = m.pending.insert(a.id, a.rects);
    let count = run_len(stored, m.next);
    let m2 = m.accept(a.id, a.rects);
    lemma_run_len(stored, m.next);
    assert(more[arrivals.len() as int] == a);
    assert forall|id: int| received(arrivals, id) implies received(more, id) by {
        let j = choose|j: int| 0 <= j < arrivals.len() && (#[trigger] arrivals[j]).id == id;
        assert(more[j].id == id);
    }
    assert(received(more, a.id as int));
    assert forall|key: u64| stored.contains_key(key) implies exists|j: int|
        0 <= j < more.len() && (#[trigger] more[j]).id == key && more[j].rects == stored[key] by {
        if key == a.id {
            assert(more[arrivals.len() as int].id == key);
        } else {
            assert(m.pending.contains_key(key));
            let j = choose|j: int|
                0 <= j < arrivals.len() && (#[trigger] arrivals[j]).id == key && arrivals[j].rects
                    == m.pending[key];
            assert(more[j].id == key && more[j].rects == stored[key]);
        }
    }
    assert forall|id: int| 0 <= id < m2.next implies received(more, id) by {
        if id < m.next {
            assert(received(arrivals, id));
        } else {
            assert(stored.contains_key((m.next + (id - m.next)) as u64));
            let j = choose|j: int|
                0 <= j < more.len() && (#[trigger] more[j]).id == id as u64 && more[j].rects
                    == stored[id as u64];
            assert(more[j].id == id);
        }
    }
    assert forall|key: u64| #[trigger] m2.pending.contains_key(key) implies exists|j: int|
        0 <= j < more.len() && (#[trigger] more[j]).id == key && more[j].rects
            == m2.pending[key] by {
        assert(stored.contains_key(key));
    }
    assert forall|key: u64| received(more, key as int) && key >= m2.next implies
        #[trigger] m2.pending.contains_key(key) by {
        let j = choose|j: int| 0 <= j < more.len() && (#[trigger] more[j]).id == key as int;
        if j < arrivals.len() {
            assert(arrivals[j].id == key);
            assert(received(arrivals, key as int));
            assert(m.pending.contains_key(key));
        }
        assert(stored.contains_key(key));
    }
}

/// The state after any sequence of arrivals is consistent.
proof fn lemma_after_consistent(arrivals: Seq<Arrival>)
    ensures
        consistent(arrivals, after(arrivals)),
    decreases arrivals.len(),
{
    if arrivals.len() > 0 {
        lemma_after_consistent(arrivals.drop_last());
        lemma_accept_consistent(arrivals.drop_last(), after(arrivals.drop_last()), arrivals.last());
        assert(arrivals.drop_last().push(arrivals.last()) =~= arrivals);
    }
}

/// The frames leave the writer in the order of their numbers, whatever the
/// order in which they arrive: the `i`-th frame written is frame number `i`,
/// so the numbers rise one by one from 0, with no gap and none twice. Each
/// frame written is one that arrived, with the rectangles it arrived with,
/// and as many frames have been written as the writer's counter says.
pub proof fn writer_emits_in_order(arrivals: Seq<Arrival>)
    ensures
        written(arrivals).len() == after(arrivals).next,
        forall|i: int| 0 <= i < written(arrivals).len() ==> (#[trigger] written(arrivals)[i]).id == i,
        forall|i: int|
            0 <= i < written(arrivals).len() ==> arrivals.contains(#[trigger] written(arrivals)[i]),
    decreases arrivals.len(),
{
    if arrivals.len() > 0 {
        let before = arrivals.drop_last();
        let a = arrivals.last();
        let m = after(before);
        writer_emits_in_order(before);
        lemma_after_consistent(before);
        lemma_accept_consistent(before, m, a);
        assert(before.push(a) =~= arrivals);
        let stored = m.pending.insert(a.id, a.rects);
        lemma_run_len(stored, m.next);
        let w = written(arrivals);
        let w0 = written(before);
        let e = m.emitted(a.id, a.rects);
        assert forall|i: int| 0 <= i < w.len() implies arrivals.contains(#[trigger] w[i]) by {
            if i < w0.len() {
                assert(before.contains(w0[i]));
                let j = choose|j: int| 0 <= j < before.len() && before[j] == w0[i];
                assert(arrivals[j] == w[i]);
            } else {
                let key = (m.next + (i - w0.len())) as u64;
                assert(w[i] == e[i - w0.len()]);
                assert(stored.contains_key(key));
                if key == a.id {
                    assert(arrivals[arrivals.len() - 1] == w[i]);
                } else {
                    assert(m.pending.contains_key(key));
                    let j = choose|j: int|
                        0 <= j < before.len() && (#[trigger] before[j]).id == key
                            && before[j].rects == m.pending[key];
                    assert(arrivals[j] == w[i]);
                }
            }
        }
    }
}

/// Once frames 0 to `n - 1` have all arrived, each once and in whatever
/// order, all of them have been written and none is left waiting.
pub proof fn writer_completes(arrivals: Seq<Arrival>, n: int)
    requires
        0 <= n < u64::MAX,
        distinct(arrivals),
        forall|j: int| 0 <= j < arrivals.len() ==> (#[trigger] arrivals[j]).id < n,
        forall|id: int| 0 <= id < n ==> received(arrivals, id),
    ensures
        after(arrivals).next == n,
        after(arrivals).pending == Map::<u64, Seq<PixelRect>>::empty(),
        written(arrivals).len() == n,
{
    let m = after(arrivals);
    lemma_after_consistent(arrivals);
    lemma_waiting_ahead(arrivals);
    writer_emits_in_order(arrivals);
    if m.next < n {
        assert(received(arrivals, m.next));
        assert(m.pending.contains_key(m.next as u64));
    }
    if m.next > n {
        assert(received(arrivals, n));
    }
    assert forall|key: u64| !m.pending.contains_key(key) by {
        if m.pending.contains_key(key) {
            let j = choose|j: int|
                0 <= j < arrivals.len() && (#[trigger] arrivals[j]).id == key && arrivals[j].rects
                    == m.pending[key];
            assert(arrivals[j].id < n);
        }
    }
    assert(m.pending =~= Map::<u64, Seq<PixelRect>>::empty());
}

/// Where no frame number arrives twice, every waiting frame is still to be
/// written.
proof fn lemma_waiting_ahead(arrivals: Seq<Arrival>)
    requires
        distinct(arrivals),
    ensures
        forall|key: u64| #[trigger] after(arrivals).pending.contains_key(key) ==> key >= after(
            arrivals,
        ).next,
    decreases arrivals.len(),
{
    if arrivals.len() > 0 {
        let before = arrivals.drop_last();
        let a = arrivals.last();
        let m = after(before);
        assert forall|i: int, j: int| 0 <= i < j < before.len() implies (#[trigger] before[i]).id != (
        #[trigger] before[j]).id by {
            assert(arrivals[i].id != arrivals[j].id);
        }
        lemma_waiting_ahead(before);
        lemma_after_consistent(before);
        let stored = m.pending.insert(a.id, a.rects);
        lemma_run_len(stored, m.next);
        if a.id < m.next {
            assert(received(before, a.id as int));
            let j = choose|j: int| 0 <= j < before.len() && (#[trigger] before[j]).id == a.id as int;
            assert(arrivals[j].id != arrivals[arrivals.len() - 1].id);
        }
        assert forall|key: u64| #[trigger] after(arrivals).pending.contains_key(key) implies key
            >= after(arrivals).next by {
            assert(stored.contains_key(key));
            if key != a.id {
                assert(m.pending.contains_key(key));
            }
        }
    }
}

/// The bytes appended to the output over a sequence of arrivals: what each
/// arrival in turn made the writer append.
pub open spec fn output_of(arrivals: Seq<Arrival>) -> Seq<u8>
    decreases arrivals.len(),
{
    if arrivals.len() == 0 {
        Seq::empty()
    } else {
        output_of(arrivals.drop_last()) + frames_bytes(
            rects_of(
                after(arrivals.drop_last()).emitted(arrivals.last().id, arrivals.last().rects),
            ),
        )
    }
}

/// The bytes of two runs of frames, one after the other, are the bytes of
/// the frames taken together.
proof fn lemma_frames_bytes_concat(x: Seq<Seq<PixelRect>>, y: Seq<Seq<PixelRect>>)
    ensures
        frames_bytes(x + y) == frames_bytes(x) + frames_bytes(y),
    decreases y.len(),
{
    if y.len() == 0 {
        assert(x + y =~= x);
        assert(frames_bytes(x) + frames_bytes(y) =~= frames_bytes(x));
    } else {
        lemma_frames_bytes_concat(x, y.drop_last());
        assert((x + y).drop_last() =~= x + y.drop_last());
        assert((x + y).last() == y.last());
        assert(frames_bytes(x) + frames_bytes(y.drop_last()) + frame_bytes(y.last())
            =~= frames_bytes(x) + (frames_bytes(y.drop_last()) + frame_bytes(y.last())));
    }
}

/// What the writer has appended to the output is the encoding of the frames
/// it has written, in the order of their numbers: the output is a stream that
/// holds frame 0, then frame 1, and so on.
pub proof fn writer_output_is_the_frames_in_order(arrivals: Seq<Arrival>)
    ensures
        output_of(arrivals) == frames_bytes(rects_of(written(arrivals))),
    decreases arrivals.len(),
{
    if arrivals.len() == 0 {
        assert(rects_of(written(arrivals)) =~= Seq::<Seq<PixelRect>>::empty());
    } else {
        let before = arrivals.drop_last();
        let e = after(before).emitted(arrivals.last().id, arrivals.last().rects);
        writer_output_is_the_frames_in_order(before);
        lemma_frames_bytes_concat(rects_of(written(before)), rects_of(e));
        assert(rects_of(written(arrivals)) =~= rects_of(written(before)) + rects_of(e));
    }
}

/// Once every frame of a video has arrived, each once and in whatever order,
/// the output is the frames of the video in their own order: frame `i` of the
/// output holds the rectangles of frame `i` of the video. The order in which
/// the workers finish leaves no trace in the stream.
pub proof fn writer_output_for_all_frames(arrivals: Seq<Arrival>, video: Seq<Seq<PixelRect>>)
    requires
        video.len() < u64::MAX,
        distinct(arrivals),
        forall|j: int|
            0 <= j < arrivals.len() ==> (#[trigger] arrivals[j]).id < video.len() && arrivals[j].rects
                == video[arrivals[j].id as int],
        forall|id: int| 0 <= id < video.len() ==> received(arrivals, id),
    ensures
        output_of(arrivals) == frames_bytes(video),
{
    writer_completes(arrivals, video.len() as int);
    writer_emits_in_order(arrivals);
    writer_output_is_the_frames_in_order(arrivals);
    let w = written(arrivals);
    assert forall|i: int| 0 <= i < w.len() implies rects_of(w)[i] == video[i] by {
        assert(arrivals.contains(w[i]));
        let j = choose|j: int| 0 <= j < arrivals.len() && arrivals[j] == w[i];
        assert(arrivals[j].id == i);
    }
    assert(rects_of(w) =~= video);
}

/// The reorder buffer and the counter of the next frame to write.
pub struct FrameWriter {
    next_needed_id: u64,
    reorder_buffer: HashMap<u64, Vec<PixelRect>>,
}

impl View for FrameWriter {
    type V = WriterModel;

    closed spec fn view(&self) -> WriterModel {
        WriterModel {
            next: self.next_needed_id as int,
            pending: Map::new(
                |key: u64| self.reorder_buffer@.contains_key(key),
                |key: u64| self.reorder_buffer@[key]@,
            ),
        }
    }
}

impl FrameWriter {
    /// A writer that has written nothing and holds nothing.
    pub fn new() -> (w: FrameWriter)
        ensures
            w@ == WriterModel::init(),
    {
        let w = FrameWriter { next_needed_id: 0, reorder_buffer: HashMap::new() };
        assert(w@.pending =~= Map::<u64, Seq<PixelRect>>::empty());
        w
    }

    /// The number of the next frame to write, which is also the number of
    /// frames written so far.
    pub fn frames_written(&self) -> (n: u64)
        ensures
            n == self@.next,
    {
        self.next_needed_id
    }

    /// How many frames wait for an earlier one.
    pub fn pending_frames(&self) -> (n: usize)
        ensures
            n == self@.pending.dom().len(),
    {
        proof {
            assert(self@.pending.dom() =~= self.reorder_buffer@.dom());
        }
        self.reorder_buffer.len()
    }

    /// Takes in one extracted frame. The frame is stored under its number;
    /// then every frame that is next in line is appended to `out`, each as
    /// its rectangles followed by the marker. The frame's pixel buffer is
    /// handed back at once, whether or not the frame could be written yet.
    pub fn accept(&mut self, frame: ProcessedFrame, out: &mut Vec<u8>) -> (buffer: Vec<u8>)
        ensures
            final(self)@ == old(self)@.accept(frame.id, frame.rects@),
            final(out)@ == old(out)@ + frames_bytes(
                rects_of(old(self)@.emitted(frame.id, frame.rects@)),
            ),
            buffer@ == frame.recycled_buffer@,
    {
        let ghost start = self@;
        let ghost out0 = out@;
        let ghost stored = start.pending.insert(frame.id, frame.rects@);
        let ProcessedFrame { id, rects, recycled_buffer } = frame;
        self.reorder_buffer.insert(id, rects);
        proof {
            assert(self@.pending =~= stored);
            assert(self@.pending =~= stored.remove_keys(numbers(start.next, start.next)));
            assert(rects_of(burst(stored, start.next, 0)) =~= Seq::<Seq<PixelRect>>::empty());
            assert(out@ =~= out0 + frames_bytes(rects_of(burst(stored, start.next, 0))));
        }
        let mut done = false;
        while !done
            invariant
                start.next <= self.next_needed_id,
                forall|i: int|
                    0 <= i < self.next_needed_id - start.next ==> #[trigger] stored.contains_key(
                        (start.next + i) as u64,
                    ),
                self@.pending == stored.remove_keys(numbers(start.next, self.next_needed_id as int)),
                out@ == out0 + frames_bytes(
                    rects_of(burst(stored, start.next, (self.next_needed_id - start.next) as nat)),
                ),
                done ==> run_len(stored, self.next_needed_id as int) == 0,
            decreases u64::MAX - self.next_needed_id + (if done { 0int } else { 1int }),
        {
            if self.next_needed_id == u64::MAX {
                done = true;
            } else {
                let ghost at = self.next_needed_id;
                let ghost held = self@.pending;
                let ghost raw = self.reorder_buffer@;
                let at_exec = self.next_needed_id;
                match self.reorder_buffer.remove(&at_exec) {
                    None => {
                        proof {
                            assert(!raw.contains_key(at));
                            assert(!held.contains_key(at));
                            assert(!stored.contains_key(at));
                        }
                        done = true;
                    },
                    Some(rects) => {
                        proof {
                            assert(self.reorder_buffer@ == raw.remove(at));
                            assert(raw.contains_key(at));
                            assert(rects == raw[at]);
                            assert(held.contains_key(at));
                            assert(held[at] == raw[at]@);
                            assert(stored.contains_key(at));
                            assert(rects@ == stored[at]);
                        }
                        encode_frame(&rects, out);
                        self.next_needed_id = self.next_needed_id + 1;
                        proof {
                            let count = (at - start.next) as nat;
                            let longer = rects_of(burst(stored, start.next, count + 1));
                            assert(longer.drop_last() =~= rects_of(
                                burst(stored, start.next, count),
                            ));
                            assert(longer.last() == stored[at]);
                            let now = self@.pending;
                            let target = stored.remove_keys(
                                numbers(start.next, self.next_needed_id as int),
                            );
                            assert forall|key: u64| now.contains_key(key) == target.contains_key(
                                key,
                            ) by {
                                assert(held.contains_key(key) == raw.contains_key(key));
                                assert(numbers(start.next, at as int).contains(key) == (start.next
                                    <= key < at));
                                assert(numbers(start.next, at + 1).contains(key) == (start.next
                                    <= key < at + 1));
                            }
                            assert forall|key: u64| now.contains_key(key) implies now[key]
                                == target[key] by {
                                assert(held.contains_key(key));
                                assert(held[key] == raw[key]@);
                            }
                            assert(now =~= target);
                            assert forall|i: int|
                                0 <= i < self.next_needed_id
                                    - start.next implies #[trigger] stored.contains_key(
                                (start.next + i) as u64,
                            ) by {
                                if i == at - start.next {
                                    assert(stored.contains_key(at));
                                }
                            }
                        }
                    },
                }
            }
        }
        proof {
            lemma_run_len_split(
                stored,
                start.next,
                (self.next_needed_id - start.next) as nat,
            );
        }
        recycled_buffer
    }
}

} // verus!
