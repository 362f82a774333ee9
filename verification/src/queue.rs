//! The bounded queue of frames waiting on one side of the firewall.

use vstd::prelude::*;
use crate::constants::MAX_ENQUEUED_PACKETS;
use crate::fragmenter::contents;

verus! {

/// A queue after `frames` were offered to it in order: those for which
/// there was room were appended, the rest were discarded.
pub open spec fn enqueued(queue: Seq<Seq<u8>>, frames: Seq<Seq<u8>>) -> Seq<Seq<u8>> {
    let room = MAX_ENQUEUED_PACKETS - queue.len();
    if frames.len() <= room {
        queue + frames
    } else {
        queue + frames.subrange(0, room)
    }
}

/// A first-in, first-out queue of at most `MAX_ENQUEUED_PACKETS` frames.
pub struct FrameQueue {
    frames: Vec<Vec<u8>>,
}

impl View for FrameQueue {
    type V = Seq<Seq<u8>>;

    closed spec fn view(&self) -> Seq<Seq<u8>> {
        contents(self.frames@)
    }
}

impl FrameQueue {
    /// The queue is within its capacity.
    pub closed spec fn wf(&self) -> bool {
        self.frames@.len() <= MAX_ENQUEUED_PACKETS
    }

    /// A consistent queue holds no more frames than its capacity.
    pub proof fn lemma_wf(&self)
        requires
            self.wf(),
        ensures
            self@.len() <= MAX_ENQUEUED_PACKETS,
    {
    }

    pub fn new() -> (q: FrameQueue)
        ensures
            q.wf(),
            q@ == Seq::<Seq<u8>>::empty(),
    {
        let q = FrameQueue { frames: Vec::new() };
        assert(q@ =~= Seq::<Seq<u8>>::empty());
        q
    }

    pub fn len(&self) -> (n: usize)
        ensures
            n == self@.len(),
    {
        self.frames.len()
    }

    pub fn is_empty(&self) -> (b: bool)
        ensures
            b == (self@.len() == 0),
    {
        self.frames.len() == 0
    }

    /// Appends a frame if there is room and tells whether it did; a frame
    /// offered to a full queue is discarded.
    pub fn push(&mut self, frame: Vec<u8>) -> (accepted: bool)
        requires
            old(self).wf(),
        ensures
            final(self).wf(),
            accepted == (old(self)@.len() < MAX_ENQUEUED_PACKETS),
            final(self)@ == enqueued(old(self)@, seq![frame@]),
    {
        if self.frames.len() < MAX_ENQUEUED_PACKETS {
            self.frames.push(frame);
            assert(self@ =~= old(self)@ + seq![frame@]);
            true
        } else {
            assert(seq![frame@].subrange(0, 0) =~= Seq::<Seq<u8>>::empty());
            assert(self@ =~= old(self)@ + Seq::<Seq<u8>>::empty());
            false
        }
    }

    /// Removes the frame that has waited longest.
    pub fn pop(&mut self) -> (frame: Option<Vec<u8>>)
        requires
            old(self).wf(),
        ensures
            final(self).wf(),
            old(self)@.len() == 0 ==> frame is None && final(self)@ == old(self)@,
            old(self)@.len() > 0 ==> frame is Some && frame->0@ == old(self)@[0] && final(self)@
                == old(self)@.subrange(1, old(self)@.len() as int),
    {
        if self.frames.len() == 0 {
            None
        } else {
            let frame = self.frames.remove(0);
            assert(self@ =~= old(self)@.subrange(1, old(self)@.len() as int));
            Some(frame)
        }
    }

    /// Offers frames in order until none is left or the queue is full;
    /// what does not fit is discarded.
    pub fn enqueue_all(&mut self, frames: Vec<Vec<u8>>)
        requires
            old(self).wf(),
        ensures
            final(self).wf(),
            final(self)@ == enqueued(old(self)@, contents(frames@)),
    {
        let mut frames = frames;
        let ghost offered = contents(frames@);
        let ghost mut taken: int = 0;
        while frames.len() > 0 && self.frames.len() < MAX_ENQUEUED_PACKETS
            invariant
                self.wf(),
                0 <= taken <= offered.len(),
                contents(frames@) == offered.subrange(taken, offered.len() as int),
                self@ == old(self)@ + offered.subrange(0, taken),
            decreases frames@.len(),
        {
            let ghost before = frames@;
            assert(contents(before).len() == before.len());
            assert(contents(before)[0] == before[0]@);
            let ghost queued = self.frames@;
            let ghost waiting = self@;
            assert(waiting.len() == queued.len());
            assert(taken < offered.len());
            let frame = frames.remove(0);
            self.frames.push(frame);
            proof {
                assert(frame@ == offered[taken]);
                assert forall|j: int| 0 <= j < self@.len() implies self@[j] == (old(self)@
                    + offered.subrange(0, taken + 1))[j] by {
                    assert(self@[j] == self.frames@[j]@);
                    if j < queued.len() {
                        assert(waiting[j] == queued[j]@);
                    }
                }
                assert forall|j: int| 0 <= j < frames@.len() implies contents(frames@)[j]
                    == offered[taken + 1 + j] by {
                    assert(contents(before)[j + 1] == before[j + 1]@);
                }
                assert(contents(frames@) =~= offered.subrange(taken + 1, offered.len() as int));
                assert(self@ =~= old(self)@ + offered.subrange(0, taken + 1));
                taken = taken + 1;
            }
        }
        proof {
            if frames@.len() == 0 {
                assert(offered.subrange(0, taken) =~= offered);
            }
            assert(self@ =~= enqueued(old(self)@, offered));
        }
    }
}

} // verus!
