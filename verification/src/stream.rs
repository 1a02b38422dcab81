//! The serial/TCP Stream API framing.
//!
//! A publicly documented byte layout used to carry protobuf packets over a serial or TCP byte
//! stream: a two-byte magic, a big-endian 16-bit length, then that many payload bytes.
//!
//! ```text
//! [0x94] [0xc3] [len_hi] [len_lo] [payload: len bytes]
//! ```

use crate::bytes;
use vstd::prelude::*;
use vstd::slice::slice_subrange;

verus! {

/// First magic byte of a stream frame.
pub const START1: u8 = 0x94;

/// Second magic byte of a stream frame.
pub const START2: u8 = 0xc3;

/// Largest payload a single frame carries in the documented format.
pub const MAX_PAYLOAD: usize = 512;

/// A stream frame: magic, big-endian length, bytes.
pub open spec fn wire(payload: Seq<u8>) -> Seq<u8> {
    seq![START1, START2] + bytes::be_bytes(payload.len(), 2) + payload
}

/// The payload length that a frame's third and fourth bytes declare.
pub open spec fn declared(s: Seq<u8>) -> nat {
    bytes::be_value(s.subrange(2, 4))
}

/// Whether the two magic bytes come first.
pub open spec fn starts_frame(s: Seq<u8>) -> bool {
    s.len() >= 2 && s[0] == START1 && s[1] == START2
}

/// What a stream holds: the payloads of its complete frames, and the bytes to keep for later.
/// Anything between frames is skipped (debug text, noise), as is a magic that declares more than
/// [`MAX_PAYLOAD`]; of a stretch with no frame only a trailing partial magic is kept.
pub open spec fn deframed(s: Seq<u8>) -> (Seq<Seq<u8>>, Seq<u8>)
    decreases s.len(),
{
    if s.len() == 0 {
        (Seq::empty(), Seq::empty())
    } else if s.len() == 1 && s[0] == START1 {
        (Seq::empty(), s)
    } else if !starts_frame(s) {
        deframed(s.skip(1))
    } else if s.len() < 4 {
        (Seq::empty(), s)
    } else if declared(s) > MAX_PAYLOAD {
        deframed(s.skip(2))
    } else if s.len() < 4 + declared(s) {
        (Seq::empty(), s)
    } else {
        let end = 4 + declared(s) as int;
        let (payloads, kept) = deframed(s.skip(end));
        (seq![s.subrange(4, end)] + payloads, kept)
    }
}

/// Wrap `payload` in a stream frame: magic, big-endian length, bytes.
///
/// `payload` may not exceed [`MAX_PAYLOAD`].
pub fn encode(payload: &[u8]) -> (out: Vec<u8>)
    requires
        payload@.len() <= MAX_PAYLOAD,
    ensures
        out@ == wire(payload@),
{
    let mut out: Vec<u8> = Vec::new();
    out.push(START1);
    out.push(START2);
    bytes::push_be(&mut out, payload.len() as u64, 2);
    out.extend_from_slice(payload);
    assert(out@ =~= wire(payload@));
    out
}

/// A streaming deframer: fed raw bytes, it yields complete payloads.
///
/// It resynchronizes on the two-byte magic (a stream also carries plain-text debug lines that
/// are not frames), and rejects a declared length beyond [`MAX_PAYLOAD`] by dropping the magic
/// and resuming the search, so a corrupt or non-frame stream cannot mislead it or grow memory.
pub struct Deframer {
    buf: Vec<u8>,
}

impl View for Deframer {
    type V = Seq<u8>;

    closed spec fn view(&self) -> Seq<u8> {
        self.buf@
    }
}

impl Deframer {
    pub fn new() -> (deframer: Self)
        ensures
            deframer@ == Seq::<u8>::empty(),
    {
        Deframer { buf: Vec::new() }
    }

    /// Consume `bytes`, appending any completed payloads to `out`.
    pub fn push(&mut self, bytes: &[u8], out: &mut Vec<Vec<u8>>)
        ensures
            final(self)@ == deframed(old(self)@ + bytes@).1,
            bytes::views(final(out)@) == bytes::views(old(out)@) + deframed(
                old(self)@ + bytes@,
            ).0,
    {
        self.buf.extend_from_slice(bytes);
        let ghost all = self.buf@;
        assert(all =~= old(self)@ + bytes@);
        let ghost before = bytes::views(out@);
        let len: usize = self.buf.len();
        let mut at: usize = 0;
        let mut scanning: bool = true;
        assert(all.skip(0) =~= all);
        while scanning
            invariant
                at <= len,
                len == all.len(),
                self.buf@ == all,
                before + deframed(all).0 == bytes::views(out@) + if scanning {
                    deframed(all.skip(at as int)).0
                } else {
                    Seq::empty()
                },
                deframed(all).1 == if scanning {
                    deframed(all.skip(at as int)).1
                } else {
                    all.skip(at as int)
                },
            decreases
                (len - at) + if scanning {
                    1int
                } else {
                    0int
                },
        {
            let ghost rest = all.skip(at as int);
            match find_magic(slice_subrange(self.buf.as_slice(), at, len)) {
                None => {
                    // Keep only a trailing partial magic (a lone START1 at the very end).
                    let keeps: bool = at < len && self.buf[len - 1] == START1;
                    proof {
                        lemma_no_magic(rest);
                    }
                    at = if keeps {
                        len - 1
                    } else {
                        len
                    };
                    assert(all.skip(at as int) =~= deframed(rest).1);
                    assert(bytes::views(out@) + deframed(rest).0 =~= bytes::views(out@));
                    scanning = false;
                },
                Some(start) => {
                    proof {
                        lemma_skips_to_magic(rest, start as int);
                        assert(rest.skip(start as int) =~= all.skip(at + start));
                    }
                    at = at + start;
                    let ghost framed = all.skip(at as int);
                    // Need magic + length before the frame size is known.
                    if len - at < 4 {
                        assert(bytes::views(out@) + deframed(framed).0 =~= bytes::views(out@));
                        scanning = false;
                    } else {
                        let declared_len: u64 = bytes::read_be(
                            slice_subrange(self.buf.as_slice(), at + 2, at + 4),
                        );
                        assert(all.subrange(at + 2, at + 4) =~= framed.subrange(2, 4));
                        if declared_len > MAX_PAYLOAD as u64 {
                            // Not a real frame: drop this magic and resync past it.
                            assert(framed.skip(2) =~= all.skip(at + 2));
                            at = at + 2;
                        } else {
                            let size: usize = declared_len as usize;
                            if len - at < 4 + size {
                                assert(bytes::views(out@) + deframed(framed).0 =~= bytes::views(
                                    out@,
                                ));
                                scanning = false;
                            } else {
                                let ghost held = bytes::views(out@);
                                let payload = bytes::copy_range(
                                    self.buf.as_slice(),
                                    at + 4,
                                    at + 4 + size,
                                );
                                out.push(payload);
                                proof {
                                    let end = 4 + size as int;
                                    assert(payload@ =~= framed.subrange(4, end));
                                    assert(bytes::views(out@) =~= held.push(payload@));
                                    assert(framed.skip(end) =~= all.skip(at + end));
                                    assert(held.push(payload@) + deframed(framed.skip(end)).0
                                        =~= held + deframed(framed).0);
                                }
                                at = at + 4 + size;
                            }
                        }
                    }
                },
            }
        }
        self.buf = bytes::copy_range(self.buf.as_slice(), at, len);
        assert(self.buf@ =~= all.skip(at as int));
        assert(before + deframed(all).0 =~= bytes::views(out@));
    }
}

impl Default for Deframer {
    fn default() -> (deframer: Self)
        ensures
            deframer@ == Seq::<u8>::empty(),
    {
        Deframer::new()
    }
}

/// Index of the first `START1 START2` pair in `buf`, if any.
fn find_magic(buf: &[u8]) -> (found: Option<usize>)
    ensures
        match found {
            Some(i) => starts_frame(buf@.skip(i as int)) && i < buf@.len() && forall|j: int|
                0 <= j < i ==> !starts_frame(#[trigger] buf@.skip(j)),
            None => forall|j: int| 0 <= j < buf@.len() ==> !starts_frame(#[trigger] buf@.skip(j)),
        },
{
    let len: usize = buf.len();
    let mut i: usize = 0;
    while i < len
        invariant
            i <= len,
            len == buf@.len(),
            forall|j: int| 0 <= j < i ==> !starts_frame(#[trigger] buf@.skip(j)),
        decreases len - i,
    {
        if len - i >= 2 && buf[i] == START1 && buf[i + 1] == START2 {
            assert(starts_frame(buf@.skip(i as int)));
            return Some(i);
        }
        i += 1;
    }
    None
}

/// Everything before the first magic is skipped.
proof fn lemma_skips_to_magic(s: Seq<u8>, start: int)
    requires
        0 <= start < s.len(),
        starts_frame(s.skip(start)),
        forall|j: int| 0 <= j < start ==> !starts_frame(#[trigger] s.skip(j)),
    ensures
        deframed(s) == deframed(s.skip(start)),
    decreases start,
{
    assert(s.skip(0) =~= s);
    if start > 0 {
        assert(s.skip(1).skip(start - 1) =~= s.skip(start));
        assert forall|j: int| 0 <= j < start - 1 implies !starts_frame(
            #[trigger] s.skip(1).skip(j),
        ) by {
            assert(s.skip(1).skip(j) =~= s.skip(j + 1));
        }
        lemma_skips_to_magic(s.skip(1), start - 1);
    }
}

/// With no magic at all, only a trailing `START1` is kept.
proof fn lemma_no_magic(s: Seq<u8>)
    requires
        forall|j: int| 0 <= j < s.len() ==> !starts_frame(#[trigger] s.skip(j)),
    ensures
        deframed(s).0 == Seq::<Seq<u8>>::empty(),
        deframed(s).1 == if s.len() > 0 && s.last() == START1 {
            seq![START1]
        } else {
            Seq::empty()
        },
    decreases s.len(),
{
    reveal_with_fuel(deframed, 2);
    if s.len() > 0 {
        assert(s.skip(0) =~= s);
        if s.len() == 1 {
            assert(s.skip(1) =~= Seq::<u8>::empty());
            if s[0] == START1 {
                assert(s =~= seq![START1]);
            }
        } else {
            assert forall|j: int| 0 <= j < s.skip(1).len() implies !starts_frame(
                #[trigger] s.skip(1).skip(j),
            ) by {
                assert(s.skip(1).skip(j) =~= s.skip(j + 1));
            }
            lemma_no_magic(s.skip(1));
        }
    }
}

/// How the stream is cut into reads does not matter: what one push keeps, joined with the next
/// bytes, yields the payloads that the whole would.
pub proof fn law_reads_may_be_split(a: Seq<u8>, b: Seq<u8>)
    ensures
        deframed(a + b).0 == deframed(a).0 + deframed(deframed(a).1 + b).0,
        deframed(a + b).1 == deframed(deframed(a).1 + b).1,
    decreases a.len(),
{
    let s = a + b;
    let none = Seq::<Seq<u8>>::empty();
    if a.len() == 0 {
        assert(s =~= b);
        assert(Seq::<u8>::empty() + b =~= b);
        assert(none + deframed(b).0 =~= deframed(b).0);
    } else if a.len() == 1 && a[0] == START1 {
        assert(none + deframed(s).0 =~= deframed(s).0);
    } else if !starts_frame(a) {
        assert(!starts_frame(s));
        assert(s.skip(1) =~= a.skip(1) + b);
        law_reads_may_be_split(a.skip(1), b);
    } else if a.len() < 4 {
        assert(none + deframed(s).0 =~= deframed(s).0);
    } else {
        assert(s.subrange(2, 4) =~= a.subrange(2, 4));
        if declared(a) > MAX_PAYLOAD {
            assert(s.skip(2) =~= a.skip(2) + b);
            law_reads_may_be_split(a.skip(2), b);
        } else if a.len() < 4 + declared(a) {
            assert(none + deframed(s).0 =~= deframed(s).0);
        } else {
            let end = 4 + declared(a) as int;
            assert(s.skip(end) =~= a.skip(end) + b);
            assert(s.subrange(4, end) =~= a.subrange(4, end));
            law_reads_may_be_split(a.skip(end), b);
            let kept = deframed(a).1;
            assert((seq![a.subrange(4, end)] + deframed(a.skip(end)).0) + deframed(kept + b).0
                =~= seq![a.subrange(4, end)] + (deframed(a.skip(end)).0 + deframed(kept + b).0));
        }
    }
}

/// An encoded payload comes back out, and what follows it is read on its own.
pub proof fn law_frames_round_trip(payload: Seq<u8>, rest: Seq<u8>)
    requires
        payload.len() <= MAX_PAYLOAD,
    ensures
        deframed(wire(payload) + rest).0 == seq![payload] + deframed(rest).0,
        deframed(wire(payload) + rest).1 == deframed(rest).1,
{
    let s = wire(payload) + rest;
    let end = 4 + payload.len() as int;
    bytes::lemma_be_bytes_len(payload.len(), 2);
    bytes::lemma_byte_spans();
    bytes::lemma_be_round_trip(payload.len(), 2);
    assert(s.subrange(2, 4) =~= bytes::be_bytes(payload.len(), 2));
    assert(s.subrange(4, end) =~= payload);
    assert(s.skip(end) =~= rest);
}

/// Text and noise before a frame are skipped, as long as they cannot be taken for a magic.
pub proof fn law_noise_is_skipped(noise: Seq<u8>, payload: Seq<u8>)
    requires
        !noise.contains(START1),
        payload.len() <= MAX_PAYLOAD,
    ensures
        deframed(noise + wire(payload)).0 == seq![payload],
        deframed(noise + wire(payload)).1 == Seq::<u8>::empty(),
    decreases noise.len(),
{
    if noise.len() == 0 {
        law_frames_round_trip(payload, Seq::empty());
        assert(noise + wire(payload) =~= wire(payload) + Seq::<u8>::empty());
        assert(seq![payload] + Seq::<Seq<u8>>::empty() =~= seq![payload]);
    } else {
        assert(noise.contains(noise[0]));
        assert forall|i: int| 0 <= i < noise.skip(1).len() implies noise.skip(1)[i] != START1 by {
            assert(noise.contains(noise[i + 1]));
        }
        law_noise_is_skipped(noise.skip(1), payload);
        assert((noise + wire(payload)).skip(1) =~= noise.skip(1) + wire(payload));
    }
}

/// A magic that declares more than a frame can carry is no frame: the search resumes past it.
pub proof fn law_a_false_magic_is_resynced_past(high: u8, low: u8, rest: Seq<u8>)
    requires
        high * 256 + low > MAX_PAYLOAD,
    ensures
        deframed(seq![START1, START2, high, low] + rest) == deframed(seq![high, low] + rest),
{
    let s = seq![START1, START2, high, low] + rest;
    assert(s.subrange(2, 4) =~= seq![high, low]);
    bytes::lemma_be_value_2(seq![high, low]);
    assert(s.skip(2) =~= seq![high, low] + rest);
}

/// What is kept is always short of one whole frame.
pub proof fn law_memory_is_bounded(s: Seq<u8>)
    ensures
        deframed(s).1.len() < 4 + MAX_PAYLOAD,
    decreases s.len(),
{
    if s.len() == 0 || s.len() == 1 && s[0] == START1 {
    } else if !starts_frame(s) {
        law_memory_is_bounded(s.skip(1));
    } else if s.len() < 4 {
    } else if declared(s) > MAX_PAYLOAD {
        law_memory_is_bounded(s.skip(2));
    } else if s.len() >= 4 + declared(s) {
        law_memory_is_bounded(s.skip(4 + declared(s) as int));
    }
}

} // verus!
