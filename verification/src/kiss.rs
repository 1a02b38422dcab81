//! KISS framing (the public amateur-radio framing that RNode builds on).
//!
//! `FEND` (0xC0) delimits frames; a literal 0xC0 inside a frame is escaped as `FESC TFEND` and a
//! literal `FESC` (0xDB) as `FESC TFESC`. Everything about frame *contents* (RNode's command byte
//! and opcode set) lives above this module.

use crate::bytes;
use crate::stuffing;
use crate::stuffing::{Marks, Progress};
use vstd::prelude::*;

verus! {

pub const FEND: u8 = 0xC0;

pub const FESC: u8 = 0xDB;

pub const TFEND: u8 = 0xDC;

pub const TFESC: u8 = 0xDD;

/// The marks of KISS.
pub open spec fn kiss_marks() -> Marks {
    Marks { end: FEND, esc: FESC, after_end: TFEND, after_esc: TFESC }
}

fn marks() -> (marks: Marks)
    ensures
        marks == kiss_marks(),
{
    Marks { end: FEND, esc: FESC, after_end: TFEND, after_esc: TFESC }
}

/// Encode one frame: leading + trailing FEND, contents escaped.
pub fn encode(frame: &[u8]) -> (out: Vec<u8>)
    ensures
        out@ == stuffing::wire(kiss_marks(), frame@),
{
    stuffing::encode(marks(), frame)
}

/// Streaming deframer with a bounded frame size.
///
/// Feed raw serial bytes in; complete frames come out. Frames that exceed `max_frame` are
/// discarded and the deframer resyncs at the next FEND, so a corrupt stream cannot balloon
/// memory. Invalid escape sequences discard the frame for the same reason.
pub struct Deframer {
    inner: stuffing::Deframer,
}

impl View for Deframer {
    type V = Progress;

    closed spec fn view(&self) -> Progress {
        self.inner@
    }
}

impl Deframer {
    #[verifier::type_invariant]
    closed spec fn well_formed(&self) -> bool {
        self.inner.marks() == kiss_marks()
    }

    /// The largest frame that is let through.
    pub closed spec fn max(&self) -> nat {
        self.inner.max()
    }

    pub fn new(max_frame: usize) -> (deframer: Self)
        ensures
            deframer@ == stuffing::fresh(),
            deframer.max() == max_frame,
    {
        Deframer { inner: stuffing::Deframer::new(marks(), max_frame) }
    }

    /// Consume raw bytes, appending any completed frames to `out`.
    pub fn push(&mut self, bytes: &[u8], out: &mut Vec<Vec<u8>>)
        ensures
            final(self).max() == old(self).max(),
            final(self)@ == stuffing::deframed(
                kiss_marks(),
                old(self)@,
                bytes@,
                old(self).max(),
            ).0,
            bytes::views(final(out)@) == bytes::views(old(out)@) + stuffing::deframed(
                kiss_marks(),
                old(self)@,
                bytes@,
                old(self).max(),
            ).1,
    {
        proof {
            use_type_invariant(&*self);
        }
        let mut inner = stuffing::Deframer::new(marks(), 0);
        std::mem::swap(&mut inner, &mut self.inner);
        inner.push(bytes, out);
        self.inner = inner;
    }
}

/// The marks can be told apart, so every law of byte-stuffed framing holds of KISS: frames come
/// back out as they were encoded.
pub proof fn law_kiss_frames_round_trip(held: Progress, frame: Seq<u8>, max: nat)
    ensures
        kiss_marks().distinct(),
        stuffing::deframed(kiss_marks(), held, stuffing::wire(kiss_marks(), frame), max) == (
            stuffing::fresh(),
            stuffing::completed(held) + if 0 < frame.len() <= max {
                seq![frame]
            } else {
                Seq::empty()
            },
        ),
{
    stuffing::law_frames_round_trip(kiss_marks(), held, frame, max);
}

} // verus!
