//! Byte-stuffed framing: a delimiter byte around each frame, and an escape byte in front of
//! whatever inside a frame would be taken for one of the two. [KISS](crate::kiss) and
//! [HDLC](crate::hdlc) framing are this with different marks.

use crate::bytes;
use vstd::prelude::*;

verus! {

/// The four bytes that a framing uses.
#[derive(Debug, Clone, Copy, PartialEq, Eq, Structural)]
pub struct Marks {
    /// Delimits frames.
    pub end: u8,
    /// Opens an escape.
    pub esc: u8,
    /// After an escape: stands for `end`.
    pub after_end: u8,
    /// After an escape: stands for `esc`.
    pub after_esc: u8,
}

impl Marks {
    /// Whether the marks can be told apart where they need to be.
    pub open spec fn distinct(self) -> bool {
        &&& self.end != self.esc
        &&& self.after_end != self.end
        &&& self.after_esc != self.end
        &&& self.after_end != self.after_esc
    }
}

/// How one byte of a frame's contents is written.
pub open spec fn escaped_byte(m: Marks, b: u8) -> Seq<u8> {
    if b == m.end {
        seq![m.esc, m.after_end]
    } else if b == m.esc {
        seq![m.esc, m.after_esc]
    } else {
        seq![b]
    }
}

/// How a frame's contents are written.
pub open spec fn escaped(m: Marks, frame: Seq<u8>) -> Seq<u8>
    decreases frame.len(),
{
    if frame.len() == 0 {
        Seq::empty()
    } else {
        escaped(m, frame.drop_last()) + escaped_byte(m, frame.last())
    }
}

/// One frame on the wire.
pub open spec fn wire(m: Marks, frame: Seq<u8>) -> Seq<u8> {
    seq![m.end] + escaped(m, frame) + seq![m.end]
}

/// The contents that a stretch of bytes without the delimiter spells: each escape must be
/// followed by `after_end` or `after_esc`. `None` if it spells nothing.
pub open spec fn unescaped(m: Marks, s: Seq<u8>) -> Option<Seq<u8>>
    decreases s.len(),
{
    if s.len() == 0 {
        Some(Seq::empty())
    } else if s[0] != m.esc {
        match unescaped(m, s.skip(1)) {
            Some(rest) => Some(seq![s[0]] + rest),
            None => None,
        }
    } else if s.len() >= 2 && (s[1] == m.after_end || s[1] == m.after_esc) {
        match unescaped(m, s.skip(2)) {
            Some(rest) => Some(
                seq![
                    if s[1] == m.after_end {
                        m.end
                    } else {
                        m.esc
                    },
                ] + rest,
            ),
            None => None,
        }
    } else {
        None
    }
}

/// Encode one frame: a leading and a trailing delimiter, contents escaped.
pub fn encode(m: Marks, frame: &[u8]) -> (out: Vec<u8>)
    ensures
        out@ == wire(m, frame@),
{
    let mut out: Vec<u8> = Vec::new();
    out.push(m.end);
    let len: usize = frame.len();
    let mut i: usize = 0;
    assert(frame@.take(0) =~= Seq::<u8>::empty());
    while i < len
        invariant
            i <= len,
            len == frame@.len(),
            out@ == seq![m.end] + escaped(m, frame@.take(i as int)),
        decreases len - i,
    {
        let ghost before = out@;
        let b: u8 = frame[i];
        if b == m.end {
            out.push(m.esc);
            out.push(m.after_end);
        } else if b == m.esc {
            out.push(m.esc);
            out.push(m.after_esc);
        } else {
            out.push(b);
        }
        assert(out@ =~= before + escaped_byte(m, b));
        assert(frame@.take(i + 1).drop_last() =~= frame@.take(i as int));
        assert(out@ =~= seq![m.end] + escaped(m, frame@.take(i + 1)));
        i += 1;
    }
    assert(frame@.take(len as int) =~= frame@);
    out.push(m.end);
    out
}

/// What a deframer holds of the frame in progress.
#[verifier::ext_equal]
pub struct Progress {
    /// The contents so far.
    pub content: Seq<u8>,
    /// An escape has been opened and not completed.
    pub escaping: bool,
    /// The frame is lost: skip to the next delimiter.
    pub poisoned: bool,
}

/// Nothing received since the last delimiter.
pub open spec fn fresh() -> Progress {
    Progress { content: Seq::empty(), escaping: false, poisoned: false }
}

/// The frame is to be discarded.
pub open spec fn poisoned() -> Progress {
    Progress { content: Seq::empty(), escaping: false, poisoned: true }
}

/// One more byte of contents, if there is room.
pub open spec fn grown(p: Progress, b: u8, max: nat) -> Progress {
    if p.content.len() >= max {
        poisoned()
    } else {
        Progress { content: p.content.push(b), escaping: false, poisoned: false }
    }
}

/// The effect of a byte other than the delimiter.
pub open spec fn took(m: Marks, p: Progress, b: u8, max: nat) -> Progress {
    if p.poisoned {
        p
    } else if p.escaping {
        if b == m.after_end {
            grown(p, m.end, max)
        } else if b == m.after_esc {
            grown(p, m.esc, max)
        } else {
            poisoned()
        }
    } else if b == m.esc {
        Progress { escaping: true, ..p }
    } else {
        grown(p, b, max)
    }
}

/// The frame, if any, that a delimiter completes.
pub open spec fn completed(p: Progress) -> Seq<Seq<u8>> {
    if !p.poisoned && !p.escaping && p.content.len() > 0 {
        seq![p.content]
    } else {
        Seq::empty()
    }
}

/// The progress and the completed frames after `s`.
pub open spec fn deframed(m: Marks, p: Progress, s: Seq<u8>, max: nat) -> (Progress, Seq<Seq<u8>>)
    decreases s.len(),
{
    if s.len() == 0 {
        (p, Seq::empty())
    } else {
        let (q, frames) = deframed(m, p, s.drop_last(), max);
        if s.last() == m.end {
            (fresh(), frames + completed(q))
        } else {
            (took(m, q, s.last(), max), frames)
        }
    }
}

/// Streaming deframer with a bounded frame size.
///
/// Feed raw serial bytes in; complete frames come out. Frames that exceed `max_frame` are
/// discarded and the deframer resyncs at the next delimiter, so a corrupt stream cannot balloon
/// memory. Invalid escape sequences discard the frame for the same reason.
pub struct Deframer {
    marks: Marks,
    buf: Vec<u8>,
    max_frame: usize,
    in_escape: bool,
    overflowed: bool,
}

impl View for Deframer {
    type V = Progress;

    closed spec fn view(&self) -> Progress {
        Progress { content: self.buf@, escaping: self.in_escape, poisoned: self.overflowed }
    }
}

impl Deframer {
    /// The largest frame that is let through.
    pub closed spec fn max(&self) -> nat {
        self.max_frame as nat
    }

    /// The marks in use.
    pub closed spec fn marks(&self) -> Marks {
        self.marks
    }

    pub fn new(marks: Marks, max_frame: usize) -> (deframer: Self)
        ensures
            deframer@ == fresh(),
            deframer.marks() == marks,
            deframer.max() == max_frame,
    {
        let deframer = Deframer {
            marks,
            buf: Vec::new(),
            max_frame,
            in_escape: false,
            overflowed: false,
        };
        assert(deframer@ =~= fresh());
        deframer
    }

    /// Consume raw bytes, appending any completed frames to `out`.
    pub fn push(&mut self, bytes: &[u8], out: &mut Vec<Vec<u8>>)
        ensures
            final(self).max() == old(self).max(),
            final(self).marks() == old(self).marks(),
            final(self)@ == deframed(old(self).marks(), old(self)@, bytes@, old(self).max()).0,
            bytes::views(final(out)@) == bytes::views(old(out)@) + deframed(
                old(self).marks(),
                old(self)@,
                bytes@,
                old(self).max(),
            ).1,
    {
        let len: usize = bytes.len();
        let mut i: usize = 0;
        let m: Marks = self.marks;
        let ghost start = self@;
        let ghost max = self.max();
        let ghost before = bytes::views(out@);
        assert(bytes@.take(0) =~= Seq::<u8>::empty());
        assert(before + deframed(m, start, bytes@.take(0), max).1 =~= before);
        while i < len
            invariant
                i <= len,
                len == bytes@.len(),
                self.max() == max,
                self.marks() == m,
                self@ == deframed(m, start, bytes@.take(i as int), max).0,
                bytes::views(out@) == before + deframed(m, start, bytes@.take(i as int), max).1,
            decreases len - i,
        {
            let b: u8 = bytes[i];
            let ghost p = self@;
            let ghost held = out@;
            proof {
                assert(bytes@.take(i + 1).drop_last() =~= bytes@.take(i as int));
                assert(bytes@.take(i + 1).last() == b);
            }
            if b == m.end {
                if !self.overflowed && !self.in_escape && self.buf.len() > 0 {
                    let mut frame: Vec<u8> = Vec::new();
                    std::mem::swap(&mut frame, &mut self.buf);
                    out.push(frame);
                    assert(bytes::views(out@) =~= bytes::views(held) + completed(p));
                } else {
                    self.buf.clear();
                    assert(bytes::views(out@) =~= bytes::views(held) + completed(p));
                }
                self.in_escape = false;
                self.overflowed = false;
                assert(self@ =~= fresh());
                assert(bytes::views(out@) =~= before + deframed(
                    m,
                    start,
                    bytes@.take(i + 1),
                    max,
                ).1);
            } else {
                self.take_byte(b);
            }
            i += 1;
        }
        assert(bytes@.take(len as int) =~= bytes@);
    }

    fn take_byte(&mut self, b: u8)
        requires
            b != old(self).marks().end,
        ensures
            final(self).max() == old(self).max(),
            final(self).marks() == old(self).marks(),
            final(self)@ == took(old(self).marks(), old(self)@, b, old(self).max()),
    {
        if self.overflowed {
            return;
        }
        let m: Marks = self.marks;
        let mut decoded: u8 = b;
        if self.in_escape {
            self.in_escape = false;
            if b == m.after_end {
                decoded = m.end;
            } else if b == m.after_esc {
                decoded = m.esc;
            } else {
                self.poison();
                return;
            }
        } else if b == m.esc {
            self.in_escape = true;
            return;
        }
        if self.buf.len() >= self.max_frame {
            self.poison();
        } else {
            self.buf.push(decoded);
        }
    }

    fn poison(&mut self)
        requires
            !old(self)@.escaping,
        ensures
            final(self).max() == old(self).max(),
            final(self).marks() == old(self).marks(),
            final(self)@ == poisoned(),
    {
        self.overflowed = true;
        self.buf.clear();
        assert(self@ =~= poisoned());
    }
}

/// How the stream is cut into reads does not matter: pushing two pieces gives the frames that
/// pushing them joined would.
pub proof fn law_reads_may_be_split(m: Marks, p: Progress, a: Seq<u8>, b: Seq<u8>, max: nat)
    ensures
        deframed(m, p, a + b, max).0 == deframed(m, deframed(m, p, a, max).0, b, max).0,
        deframed(m, p, a + b, max).1 == deframed(m, p, a, max).1 + deframed(
            m,
            deframed(m, p, a, max).0,
            b,
            max,
        ).1,
    decreases b.len(),
{
    let (q, first) = deframed(m, p, a, max);
    if b.len() == 0 {
        assert(a + b =~= a);
        assert(first + Seq::<Seq<u8>>::empty() =~= first);
    } else {
        law_reads_may_be_split(m, p, a, b.drop_last(), max);
        assert((a + b).drop_last() =~= a + b.drop_last());
        let (r, rest) = deframed(m, q, b.drop_last(), max);
        if b.last() == m.end {
            assert((first + rest) + completed(r) =~= first + (rest + completed(r)));
        }
    }
}

/// A deframer resynchronises at any delimiter: whatever came before, it starts afresh.
pub proof fn law_resync_at_delimiter(m: Marks, p: Progress, s: Seq<u8>, max: nat)
    requires
        s.len() > 0,
        s.last() == m.end,
    ensures
        deframed(m, p, s, max).0 == fresh(),
{
}

/// No more than `max` bytes are ever held.
pub proof fn law_memory_is_bounded(m: Marks, p: Progress, s: Seq<u8>, max: nat)
    requires
        p.content.len() <= max,
    ensures
        deframed(m, p, s, max).0.content.len() <= max,
    decreases s.len(),
{
    if s.len() > 0 {
        law_memory_is_bounded(m, p, s.drop_last(), max);
    }
}

/// Every frame that comes out is non-empty and within the size limit.
pub proof fn law_frames_are_bounded(m: Marks, p: Progress, s: Seq<u8>, max: nat)
    requires
        p.content.len() <= max,
    ensures
        forall|i: int|
            0 <= i < deframed(m, p, s, max).1.len() ==> 0 < (#[trigger] deframed(m, p, s, max).1[i]).len()
                <= max,
    decreases s.len(),
{
    if s.len() > 0 {
        law_frames_are_bounded(m, p, s.drop_last(), max);
        law_memory_is_bounded(m, p, s.drop_last(), max);
    }
}

/// Escaped contents hold no delimiter.
pub proof fn law_escaped_contents_hold_no_delimiter(m: Marks, frame: Seq<u8>)
    requires
        m.distinct(),
    ensures
        !escaped(m, frame).contains(m.end),
    decreases frame.len(),
{
    if frame.len() > 0 {
        law_escaped_contents_hold_no_delimiter(m, frame.drop_last());
        let front = escaped(m, frame.drop_last());
        let s = escaped(m, frame);
        assert forall|i: int| 0 <= i < s.len() implies s[i] != m.end by {
            if i < front.len() {
                assert(s[i] == front[i]);
                assert(front.contains(front[i]));
            } else {
                assert(s[i] == escaped_byte(m, frame.last())[i - front.len()]);
            }
        }
    }
}

/// Escaped contents are read back, or the frame is poisoned if they are too long.
proof fn lemma_escaped_is_taken(m: Marks, frame: Seq<u8>, max: nat)
    requires
        m.distinct(),
    ensures
        deframed(m, fresh(), escaped(m, frame), max) == (
            if frame.len() <= max {
                Progress { content: frame, escaping: false, poisoned: false }
            } else {
                poisoned()
            },
            Seq::<Seq<u8>>::empty(),
        ),
    decreases frame.len(),
{
    if frame.len() == 0 {
        assert(frame =~= Seq::<u8>::empty());
    } else {
        let front = frame.drop_last();
        let b = frame.last();
        lemma_escaped_is_taken(m, front, max);
        law_reads_may_be_split(m, fresh(), escaped(m, front), escaped_byte(m, b), max);
        let p = deframed(m, fresh(), escaped(m, front), max).0;
        assert(front.push(b) =~= frame);
        reveal_with_fuel(deframed, 3);
        if b == m.end || b == m.esc {
            let t = if b == m.end {
                m.after_end
            } else {
                m.after_esc
            };
            assert(escaped_byte(m, b).drop_last() =~= seq![m.esc]);
            assert(seq![m.esc].drop_last() =~= Seq::<u8>::empty());
        } else {
            assert(escaped_byte(m, b).drop_last() =~= Seq::<u8>::empty());
        }
        assert(Seq::<Seq<u8>>::empty() + Seq::<Seq<u8>>::empty() =~= Seq::<Seq<u8>>::empty());
    }
}

/// An encoded frame comes back out: whatever the deframer held before, it completes that at the
/// leading delimiter, then delivers the frame if it is non-empty and within the limit (and nothing
/// if not), and is fresh for the next.
pub proof fn law_frames_round_trip(m: Marks, p: Progress, frame: Seq<u8>, max: nat)
    requires
        m.distinct(),
    ensures
        deframed(m, p, wire(m, frame), max).0 == fresh(),
        deframed(m, p, wire(m, frame), max).1 == completed(p) + if 0 < frame.len() <= max {
            seq![frame]
        } else {
            Seq::empty()
        },
{
    let open = seq![m.end];
    law_reads_may_be_split(m, p, open, escaped(m, frame), max);
    law_reads_may_be_split(m, p, open + escaped(m, frame), seq![m.end], max);
    assert(open.drop_last() =~= Seq::<u8>::empty());
    reveal_with_fuel(deframed, 2);
    assert(deframed(m, p, open, max).1 =~= completed(p));
    lemma_escaped_is_taken(m, frame, max);
    let q = deframed(m, p, open + escaped(m, frame), max).0;
    assert(deframed(m, p, open + escaped(m, frame), max).1 =~= completed(p));
    assert(deframed(m, q, seq![m.end], max).1 =~= completed(q));
}

/// What a deframer makes of a stretch of bytes between two delimiters: exactly the contents that
/// the stretch spells, if it spells any, non-empty and within the limit; otherwise nothing.
pub proof fn law_a_frame_is_what_its_bytes_spell(m: Marks, s: Seq<u8>, max: nat)
    requires
        !s.contains(m.end),
    ensures
        deframed(m, fresh(), s.push(m.end), max).1 == match unescaped(m, s) {
            Some(content) => if 0 < content.len() <= max {
                seq![content]
            } else {
                Seq::empty()
            },
            None => Seq::empty(),
        },
{
    lemma_spelled(m, fresh(), s, max);
    assert(s.push(m.end).drop_last() =~= s);
    let p = deframed(m, fresh(), s, max).0;
    if let Some(content) = unescaped(m, s) {
        assert(Seq::<u8>::empty() + content =~= content);
    }
    assert(deframed(m, fresh(), s.push(m.end), max).1 =~= completed(p));
}

/// From any progress that is not mid-escape, a stretch without delimiters adds what it spells.
proof fn lemma_spelled(m: Marks, p: Progress, s: Seq<u8>, max: nat)
    requires
        !s.contains(m.end),
        !p.escaping,
        !p.poisoned,
        p.content.len() <= max,
    ensures
        deframed(m, p, s, max).1 == Seq::<Seq<u8>>::empty(),
        match unescaped(m, s) {
            Some(content) => deframed(m, p, s, max).0 == if p.content.len() + content.len() <= max {
                Progress { content: p.content + content, escaping: false, poisoned: false }
            } else {
                poisoned()
            },
            None => deframed(m, p, s, max).0.escaping || deframed(m, p, s, max).0.poisoned,
        },
    decreases s.len(),
{
    reveal_with_fuel(deframed, 3);
    if s.len() == 0 {
        assert(p.content + Seq::<u8>::empty() =~= p.content);
    } else {
        assert(s.contains(s[0]));
        let n: int = if s[0] != m.esc || s.len() == 1 {
            1
        } else {
            2
        };
        let head = s.take(n);
        let tail = s.skip(n);
        assert(s =~= head + tail);
        assert forall|i: int| 0 <= i < tail.len() implies tail[i] != m.end by {
            assert(tail[i] == s[i + n]);
            assert(s.contains(s[i + n]));
        }
        law_reads_may_be_split(m, p, head, tail, max);
        if n == 2 {
            assert(s.contains(s[1]));
            assert(head.drop_last() =~= seq![s[0]]);
            assert(head.last() == s[1]);
            assert(seq![s[0]].drop_last() =~= Seq::<u8>::empty());
        } else {
            assert(head =~= seq![s[0]]);
            assert(head.drop_last() =~= Seq::<u8>::empty());
        }
        let q = deframed(m, p, head, max).0;
        assert(deframed(m, p, head, max).1 =~= Seq::<Seq<u8>>::empty());
        if q.poisoned {
            lemma_poison_holds(m, tail, max);
            assert(q == poisoned());
        } else if q.escaping {
            assert(tail =~= Seq::<u8>::empty());
        } else {
            lemma_spelled(m, q, tail, max);
            if let Some(rest) = unescaped(m, tail) {
                assert(unescaped(m, s) is Some);
                let content = unescaped(m, s)->0;
                assert(q.content + rest =~= p.content + content);
            }
        }
        assert(deframed(m, p, s, max).1 =~= Seq::<Seq<u8>>::empty());
    }
}

/// A poisoned frame stays so until the next delimiter.
proof fn lemma_poison_holds(m: Marks, s: Seq<u8>, max: nat)
    requires
        !s.contains(m.end),
    ensures
        deframed(m, poisoned(), s, max) == (poisoned(), Seq::<Seq<u8>>::empty()),
    decreases s.len(),
{
    if s.len() > 0 {
        assert(s.contains(s.last()));
        assert forall|i: int| 0 <= i < s.drop_last().len() implies s.drop_last()[i] != m.end by {
            assert(s.contains(s[i]));
        }
        lemma_poison_holds(m, s.drop_last(), max);
    }
}

/// Only marks are escaped: contents that hold none go out as they are, between the delimiters.
pub proof fn law_plain_contents_go_out_as_they_are(m: Marks, frame: Seq<u8>)
    requires
        !frame.contains(m.end),
        !frame.contains(m.esc),
    ensures
        wire(m, frame) == seq![m.end] + frame + seq![m.end],
    decreases frame.len(),
{
    lemma_plain(m, frame);
}

proof fn lemma_plain(m: Marks, frame: Seq<u8>)
    requires
        !frame.contains(m.end),
        !frame.contains(m.esc),
    ensures
        escaped(m, frame) == frame,
    decreases frame.len(),
{
    if frame.len() > 0 {
        let front = frame.drop_last();
        assert forall|i: int| 0 <= i < front.len() implies front[i] != m.end && front[i]
            != m.esc by {
            assert(frame.contains(frame[i]));
        }
        lemma_plain(m, front);
        assert(frame.contains(frame.last()));
        assert(escaped(m, frame) =~= frame);
    } else {
        assert(escaped(m, frame) =~= frame);
    }
}

} // verus!
