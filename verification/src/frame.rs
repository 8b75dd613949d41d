//! Captured frames.

use vstd::prelude::*;

use crate::proto::{FrameHeader, ProtoError, MAX_CAPLEN};

verus! {

/// A captured frame: its header and its bytes.
pub struct Frame {
    pub header: FrameHeader,
    pub data: Vec<u8>,
}

/// What a frame holds.
pub struct FrameView {
    pub header: FrameHeader,
    pub data: Seq<u8>,
}

impl View for Frame {
    type V = FrameView;

    open spec fn view(&self) -> FrameView {
        FrameView { header: self.header, data: self.data@ }
    }
}

impl FrameView {
    /// The frame's bytes on the wire.
    pub open spec fn encoding(self) -> Seq<u8> {
        self.header.encoding() + self.data
    }

    /// Whether the header's length is that of the data, and one that a consumer
    /// accepts.
    pub open spec fn deliverable(self) -> bool {
        self.header.caplen == self.data.len() <= MAX_CAPLEN
    }
}

/// The bytes of frames, one behind the other.
pub open spec fn frames_encoding(frames: Seq<FrameView>) -> Seq<u8>
    decreases frames.len(),
{
    if frames.len() == 0 {
        Seq::empty()
    } else {
        frames[0].encoding() + frames_encoding(frames.drop_first())
    }
}

/// Appends a frame: its header, then its data.
pub fn write_frame(w: &mut Vec<u8>, f: &Frame) -> (res: Result<(), ProtoError>)
    ensures
        res is Ok,
        final(w)@ == old(w)@ + f@.encoding(),
{
    match f.header.write_to(w) {
        Ok(_) => {},
        Err(e) => {
            return Err(e);
        },
    }
    w.extend_from_slice(f.data.as_slice());
    assert(w@ =~= old(w)@ + f@.encoding());
    Ok(())
}

pub proof fn lemma_frames_encoding_push(frames: Seq<FrameView>, f: FrameView)
    ensures
        frames_encoding(frames.push(f)) == frames_encoding(frames) + f.encoding(),
    decreases frames.len(),
{
    if frames.len() == 0 {
        assert(frames.push(f).drop_first() =~= frames);
        assert(frames_encoding(frames.push(f)) =~= frames_encoding(frames) + f.encoding());
    } else {
        let rest = frames.drop_first();
        lemma_frames_encoding_push(rest, f);
        assert(frames.push(f).drop_first() =~= rest.push(f));
        assert(frames_encoding(frames.push(f)) =~= frames_encoding(frames) + f.encoding());
    }
}

} // verus!
