//! HDLC-style framing, as used for packets over a byte-stream interface.

use crate::bytes;
use crate::stuffing;
use crate::stuffing::{Marks, Progress};
use vstd::prelude::*;

verus! {

/// Delimits frames.
pub const FLAG: u8 = 0x7E;

/// Opens an escape.
pub const ESC: u8 = 0x7D;

/// After an escape, stands for [`FLAG`]: the flag with bit 5 flipped.
pub const ESC_FLAG: u8 = 0x5E;

/// After an escape, stands for [`ESC`]: the escape with bit 5 flipped.
pub const ESC_ESC: u8 = 0x5D;

/// Largest frame let through: more than any packet takes.
pub const MAX_FRAME: usize = 1024;

/// The marks of HDLC.
pub open spec fn hdlc_marks() -> Marks {
    Marks { end: FLAG, esc: ESC, after_end: ESC_FLAG, after_esc: ESC_ESC }
}

fn marks() -> (marks: Marks)
    ensures
        marks == hdlc_marks(),
{
    Marks { end: FLAG, esc: ESC, after_end: ESC_FLAG, after_esc: ESC_ESC }
}

/// Frame one packet: leading + trailing flag, contents escaped.
pub fn frame(packet: &[u8]) -> (out: Vec<u8>)
    ensures
        out@ == stuffing::wire(hdlc_marks(), packet@),
{
    stuffing::encode(marks(), packet)
}

/// Streaming deframer: feed raw socket bytes in, complete frames come out. Frames that exceed
/// [`MAX_FRAME`] or hold an invalid escape are discarded, and the deframer resyncs at the next
/// flag.
pub struct Deframer {
    inner: stuffing::Deframer,
}

impl View for Deframer {
    type V = Progress;

    closed spec fn view(&self) -> Progress {
        self.inner@
    }
}

impl Deframer {
    #[verifier::type_invariant]
    closed spec fn well_formed(&self) -> bool {
        self.inner.marks() == hdlc_marks() && self.inner.max() == MAX_FRAME
    }

    pub fn new() -> (deframer: Self)
        ensures
            deframer@ == stuffing::fresh(),
    {
        Deframer { inner: stuffing::Deframer::new(marks(), MAX_FRAME) }
    }

    /// Consume raw bytes and return the completed frames.
    pub fn push(&mut self, bytes: &[u8]) -> (out: Vec<Vec<u8>>)
        ensures
            (final(self)@, bytes::views(out@)) == stuffing::deframed(
                hdlc_marks(),
                old(self)@,
                bytes@,
                MAX_FRAME as nat,
            ),
    {
        let mut out: Vec<Vec<u8>> = Vec::new();
        assert(bytes::views(out@) =~= Seq::<Seq<u8>>::empty());
        proof {
            use_type_invariant(&*self);
        }
        let mut inner = stuffing::Deframer::new(marks(), MAX_FRAME);
        std::mem::swap(&mut inner, &mut self.inner);
        inner.push(bytes, &mut out);
        self.inner = inner;
        assert(bytes::views(out@) =~= stuffing::deframed(
            hdlc_marks(),
            old(self)@,
            bytes@,
            MAX_FRAME as nat,
        ).1);
        out
    }
}

/// The marks can be told apart, so every law of byte-stuffed framing holds of HDLC: frames come
/// back out as they were encoded.
pub proof fn law_hdlc_frames_round_trip(held: Progress, frame: Seq<u8>, max: nat)
    ensures
        hdlc_marks().distinct(),
        stuffing::deframed(hdlc_marks(), held, stuffing::wire(hdlc_marks(), frame), max) == (
            stuffing::fresh(),
            stuffing::completed(held) + if 0 < frame.len() <= max {
                seq![frame]
            } else {
                Seq::empty()
            },
        ),
{
    stuffing::law_frames_round_trip(hdlc_marks(), held, frame, max);
}

} // verus!
