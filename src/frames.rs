//! Frames waiting in memory for the encoder, and the length of what has been encoded.
use vstd::prelude::*;

verus! {

/// Frames held in memory until the encoder takes them, in the order they came.
pub struct FrameQueue {
    frames: Vec<Vec<u8>>,
}

/// A queue is seen as the frames it holds, first submitted first.
impl View for FrameQueue {
    type V = Seq<Seq<u8>>;

    closed spec fn view(&self) -> Self::V {
        self.frames@.map_values(|f: Vec<u8>| f@)
    }
}

impl FrameQueue {
    /// A queue that holds no frame.
    pub fn new() -> (r: FrameQueue)
        ensures
            r@ == Seq::<Seq<u8>>::empty(),
    {
        FrameQueue { frames: Vec::new() }
    }

    /// Appends `frame` after the frames submitted before it.
    pub fn submit(&mut self, frame: Vec<u8>)
        ensures
            final(self)@ == old(self)@.push(frame@),
    {
        self.frames.push(frame);
        assert(self@ =~= old(self)@.push(frame@));
    }

    /// How many frames are waiting.
    pub fn len(&self) -> (r: usize)
        ensures
            r == self@.len(),
    {
        self.frames.len()
    }

    /// Hands every frame over for encoding, in the order of submission.
    pub fn replay(self) -> (r: Vec<Vec<u8>>)
        ensures
            r@.map_values(|f: Vec<u8>| f@) == self@,
    {
        self.frames
    }
}

/// The contents of a queue that held `q` once `frames` have been submitted to it,
/// one after another.
pub open spec fn after_submitting(q: Seq<Seq<u8>>, frames: Seq<Seq<u8>>) -> Seq<Seq<u8>>
    decreases frames.len(),
{
    if frames.len() == 0 {
        q
    } else {
        after_submitting(q, frames.drop_last()).push(frames.last())
    }
}

/// Frames are replayed in the order they were submitted: a fresh queue that is
/// given `frames` one by one holds exactly `frames`, first submitted first.
pub proof fn lemma_queue_replays_in_submission_order(frames: Seq<Seq<u8>>)
    ensures
        after_submitting(Seq::empty(), frames) == frames,
    decreases frames.len(),
{
    if frames.len() > 0 {
        lemma_queue_replays_in_submission_order(frames.drop_last());
        assert(frames.drop_last().push(frames.last()) == frames);
    }
}

/// The duration, in whole milliseconds, that `frames` frames last at `fps`
/// frames per second.
pub open spec fn encoded_millis_spec(frames: nat, fps: nat) -> nat {
    frames * 1000 / fps
}

/// The length of the video encoded so far: `frames` frames at `fps` frames per
/// second, in whole milliseconds.
pub fn encoded_millis(frames: u64, fps: u32) -> (r: u128)
    requires
        fps > 0,
    ensures
        r == encoded_millis_spec(frames as nat, fps as nat),
{
    frames as u128 * 1000 / fps as u128
}

} // verus!
