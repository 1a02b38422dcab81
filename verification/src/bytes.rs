//! Byte-string helpers: fixed-width integers, comparison, and copying.

use vstd::prelude::*;

verus! {

/// The `n` big-endian bytes of `x` (the low `n` bytes, if `x` needs more).
pub open spec fn be_bytes(x: nat, n: nat) -> Seq<u8>
    decreases n,
{
    if n == 0 {
        Seq::empty()
    } else {
        be_bytes(x / 256, (n - 1) as nat).push((x % 256) as u8)
    }
}

/// The number that `s` spells, most significant byte first.
pub open spec fn be_value(s: Seq<u8>) -> nat
    decreases s.len(),
{
    if s.len() == 0 {
        0
    } else {
        be_value(s.drop_last()) * 256 + s.last() as nat
    }
}

/// The `n` little-endian bytes of `x` (the low `n` bytes, if `x` needs more).
pub open spec fn le_bytes(x: nat, n: nat) -> Seq<u8> {
    be_bytes(x, n).reverse()
}

/// The number that `s` spells, least significant byte first.
pub open spec fn le_value(s: Seq<u8>) -> nat {
    be_value(s.reverse())
}

/// How many numbers `n` bytes can spell: `256^n`.
pub open spec fn byte_span(n: nat) -> nat
    decreases n,
{
    if n == 0 {
        1
    } else {
        256 * byte_span((n - 1) as nat)
    }
}

/// Writing a number in `n` bytes always takes exactly `n` bytes.
pub broadcast proof fn lemma_be_bytes_len(x: nat, n: nat)
    ensures
        #[trigger] be_bytes(x, n).len() == n,
    decreases n,
{
    if n > 0 {
        lemma_be_bytes_len(x / 256, (n - 1) as nat);
    }
}

/// The little-endian form has the same length.
pub broadcast proof fn lemma_le_bytes_len(x: nat, n: nat)
    ensures
        #[trigger] le_bytes(x, n).len() == n,
{
    lemma_be_bytes_len(x, n);
}

/// `s.len()` bytes spell a number below `256^s.len()`.
pub proof fn lemma_be_value_bound(s: Seq<u8>)
    ensures
        be_value(s) < byte_span(s.len()),
    decreases s.len(),
{
    if s.len() > 0 {
        lemma_be_value_bound(s.drop_last());
    }
}

/// The spans of the widths in use.
pub proof fn lemma_byte_spans()
    ensures
        byte_span(0) == 1,
        byte_span(1) == 0x100,
        byte_span(2) == 0x1_0000,
        byte_span(3) == 0x100_0000,
        byte_span(4) == 0x1_0000_0000,
        byte_span(8) == 0x1_0000_0000_0000_0000,
{
    reveal_with_fuel(byte_span, 9);
}

/// A longer span is no smaller.
pub proof fn lemma_byte_span_monotonic(a: nat, b: nat)
    requires
        a <= b,
    ensures
        byte_span(a) <= byte_span(b),
    decreases b,
{
    if a < b {
        lemma_byte_span_monotonic(a, (b - 1) as nat);
    }
}

/// Reading back what was written gives the number, when it fits the width.
pub proof fn lemma_be_round_trip(x: nat, n: nat)
    requires
        x < byte_span(n),
    ensures
        be_value(be_bytes(x, n)) == x,
    decreases n,
{
    lemma_be_bytes_len(x, n);
    if n > 0 {
        lemma_be_round_trip(x / 256, (n - 1) as nat);
        assert(be_bytes(x, n).drop_last() =~= be_bytes(x / 256, (n - 1) as nat));
    }
}

/// The little-endian round trip.
pub proof fn lemma_le_round_trip(x: nat, n: nat)
    requires
        x < byte_span(n),
    ensures
        le_value(le_bytes(x, n)) == x,
{
    lemma_be_round_trip(x, n);
    assert(be_bytes(x, n).reverse().reverse() =~= be_bytes(x, n));
}

/// Writing back what was read gives the bytes.
pub proof fn lemma_be_value_spelled(s: Seq<u8>)
    ensures
        be_bytes(be_value(s), s.len()) == s,
    decreases s.len(),
{
    if s.len() > 0 {
        lemma_be_value_spelled(s.drop_last());
        let v = be_value(s);
        assert(v / 256 == be_value(s.drop_last()));
        assert(v % 256 == s.last());
        assert(be_bytes(v, s.len()) =~= s);
    } else {
        assert(be_bytes(be_value(s), 0) =~= s);
    }
}

/// The little-endian form of the same.
pub proof fn lemma_le_value_spelled(s: Seq<u8>)
    ensures
        le_bytes(le_value(s), s.len()) == s,
{
    lemma_be_value_spelled(s.reverse());
    assert(s.reverse().reverse() =~= s);
}

/// Two bytes, spelled out.
pub proof fn lemma_be_value_2(s: Seq<u8>)
    requires
        s.len() == 2,
    ensures
        be_value(s) == s[0] as nat * 256 + s[1] as nat,
{
    reveal_with_fuel(be_value, 3);
}

/// Append the `n` low bytes of `x`, most significant first.
pub fn push_be(out: &mut Vec<u8>, x: u64, n: usize)
    ensures
        final(out)@ == old(out)@ + be_bytes(x as nat, n as nat),
    decreases n,
{
    if n > 0 {
        push_be(out, x / 256, n - 1);
        out.push((x % 256) as u8);
        assert(out@ =~= old(out)@ + be_bytes(x as nat, n as nat));
    } else {
        assert(out@ =~= old(out)@ + be_bytes(x as nat, n as nat));
    }
}

/// Append the `n` low bytes of `x`, least significant first.
pub fn push_le(out: &mut Vec<u8>, x: u64, n: usize)
    ensures
        final(out)@ == old(out)@ + le_bytes(x as nat, n as nat),
    decreases n,
{
    broadcast use lemma_be_bytes_len;

    if n > 0 {
        out.push((x % 256) as u8);
        push_le(out, x / 256, n - 1);
    }
    assert(out@ =~= old(out)@ + le_bytes(x as nat, n as nat));
}

/// The number that at most eight big-endian bytes spell.
pub fn read_be(s: &[u8]) -> (x: u64)
    requires
        s@.len() <= 8,
    ensures
        x as nat == be_value(s@),
{
    let mut x: u64 = 0;
    let mut i: usize = 0;
    assert(s@.take(0) =~= Seq::<u8>::empty());
    while i < s.len()
        invariant
            i <= s@.len() <= 8,
            x as nat == be_value(s@.take(i as int)),
        decreases s@.len() - i,
    {
        proof {
            lemma_be_value_bound(s@.take(i as int));
            lemma_byte_span_monotonic(i as nat, 7);
            assert(byte_span(7) == 0x100_0000_0000_0000) by {
                reveal_with_fuel(byte_span, 8);
            }
            assert(s@.take(i + 1).drop_last() =~= s@.take(i as int));
        }
        x = x * 256 + s[i] as u64;
        i += 1;
    }
    assert(s@.take(s@.len() as int) =~= s@);
    x
}

/// The number that at most eight little-endian bytes spell.
pub fn read_le(s: &[u8]) -> (x: u64)
    requires
        s@.len() <= 8,
    ensures
        x as nat == le_value(s@),
{
    let ghost r = s@.reverse();
    let mut x: u64 = 0;
    let mut i: usize = s.len();
    assert(r.take(0) =~= Seq::<u8>::empty());
    while i > 0
        invariant
            i <= s@.len() <= 8,
            r == s@.reverse(),
            x as nat == be_value(r.take(s@.len() - i)),
        decreases i,
    {
        proof {
            let k: nat = (s@.len() - i) as nat;
            lemma_be_value_bound(r.take(k as int));
            lemma_byte_span_monotonic(k, 7);
            assert(byte_span(7) == 0x100_0000_0000_0000) by {
                reveal_with_fuel(byte_span, 8);
            }
            assert(r.take(k as int + 1).drop_last() =~= r.take(k as int));
        }
        i -= 1;
        x = x * 256 + s[i] as u64;
    }
    assert(r.take(s@.len() as int) =~= r);
    x
}

/// Whether two byte strings are the same.
pub fn same_bytes(a: &[u8], b: &[u8]) -> (same: bool)
    ensures
        same == (a@ == b@),
{
    if a.len() != b.len() {
        return false;
    }
    let mut i: usize = 0;
    while i < a.len()
        invariant
            i <= a@.len(),
            a@.len() == b@.len(),
            a@.take(i as int) =~= b@.take(i as int),
        decreases a@.len() - i,
    {
        if a[i] != b[i] {
            return false;
        }
        assert(a@.take(i + 1) =~= a@.take(i as int).push(a@[i as int]));
        assert(b@.take(i + 1) =~= b@.take(i as int).push(b@[i as int]));
        i += 1;
    }
    assert(a@.take(a@.len() as int) =~= a@);
    assert(b@.take(b@.len() as int) =~= b@);
    true
}

/// A copy of `s[from..to]`.
pub fn copy_range(s: &[u8], from: usize, to: usize) -> (out: Vec<u8>)
    requires
        from <= to <= s@.len(),
    ensures
        out@ == s@.subrange(from as int, to as int),
{
    let mut out: Vec<u8> = Vec::with_capacity(to - from);
    out.extend_from_slice(vstd::slice::slice_subrange(s, from, to));
    assert(out@ =~= s@.subrange(from as int, to as int));
    out
}

/// A copy of a whole byte string.
pub fn copy_all(s: &[u8]) -> (out: Vec<u8>)
    ensures
        out@ == s@,
{
    let mut out: Vec<u8> = Vec::with_capacity(s.len());
    out.extend_from_slice(s);
    assert(out@ =~= s@);
    out
}

/// The `N` bytes of `s` that start at `from`, as an array.
pub fn array_at<const N: usize>(s: &[u8], from: usize) -> (out: [u8; N])
    requires
        from + N <= s@.len(),
    ensures
        out@ == s@.subrange(from as int, from + N),
{
    let len: usize = s.len();
    let mut out: [u8; N] = [0; N];
    let mut i: usize = 0;
    while i < N
        invariant
            i <= N,
            from + N <= len,
            len == s@.len(),
            forall|j: int| 0 <= j < i ==> out@[j] == s@[from + j],
        decreases N - i,
    {
        out[i] = s[from + i];
        i += 1;
    }
    assert(out@ =~= s@.subrange(from as int, from + N));
    out
}

/// The byte strings of a list.
pub open spec fn views(list: Seq<Vec<u8>>) -> Seq<Seq<u8>> {
    list.map_values(|b: Vec<u8>| b@)
}

/// `s` cut into pieces of `size` bytes, the last one holding what is left.
pub open spec fn chunks(s: Seq<u8>, size: nat) -> Seq<Seq<u8>>
    decreases s.len(),
{
    if s.len() == 0 || size == 0 {
        Seq::empty()
    } else if s.len() <= size {
        seq![s]
    } else {
        seq![s.take(size as int)] + chunks(s.skip(size as int), size)
    }
}

/// A list of byte strings, one after another.
pub open spec fn joined(list: Seq<Seq<u8>>) -> Seq<u8>
    decreases list.len(),
{
    if list.len() == 0 {
        Seq::empty()
    } else {
        joined(list.drop_last()) + list.last()
    }
}

/// Joining a list that is itself two lists.
pub proof fn lemma_joined_concat(a: Seq<Seq<u8>>, b: Seq<Seq<u8>>)
    ensures
        joined(a + b) == joined(a) + joined(b),
    decreases b.len(),
{
    if b.len() == 0 {
        assert(a + b =~= a);
        assert(joined(a) + joined(b) =~= joined(a));
    } else {
        assert((a + b).drop_last() =~= a + b.drop_last());
        lemma_joined_concat(a, b.drop_last());
        assert(joined(a + b) =~= joined(a) + joined(b));
    }
}

/// Cutting and joining again changes nothing.
pub proof fn law_chunks_join(s: Seq<u8>, size: nat)
    requires
        size > 0,
    ensures
        joined(chunks(s, size)) == s,
    decreases s.len(),
{
    reveal_with_fuel(joined, 2);
    if s.len() == 0 {
        assert(joined(chunks(s, size)) =~= s);
    } else if s.len() <= size {
        assert(seq![s].drop_last() =~= Seq::<Seq<u8>>::empty());
        assert(joined(chunks(s, size)) =~= s);
    } else {
        let head = seq![s.take(size as int)];
        law_chunks_join(s.skip(size as int), size);
        lemma_joined_concat(head, chunks(s.skip(size as int), size));
        assert(head.drop_last() =~= Seq::<Seq<u8>>::empty());
        assert(joined(head) =~= s.take(size as int));
        assert(s.take(size as int) + s.skip(size as int) =~= s);
    }
}

/// No piece is empty or longer than `size`.
pub proof fn law_chunk_sizes(s: Seq<u8>, size: nat)
    requires
        size > 0,
    ensures
        forall|i: int|
            0 <= i < chunks(s, size).len() ==> 0 < (#[trigger] chunks(s, size)[i]).len() <= size,
    decreases s.len(),
{
    if s.len() > size {
        law_chunk_sizes(s.skip(size as int), size);
        let tail = chunks(s.skip(size as int), size);
        assert forall|i: int| 0 <= i < chunks(s, size).len() implies 0 < (#[trigger] chunks(
            s,
            size,
        )[i]).len() <= size by {
            if i > 0 {
                assert(chunks(s, size)[i] == tail[i - 1]);
            }
        }
    }
}

/// Cut `s` into pieces of `size` bytes.
pub fn split_chunks(s: &[u8], size: usize) -> (list: Vec<Vec<u8>>)
    requires
        size > 0,
    ensures
        views(list@) == chunks(s@, size as nat),
{
    let mut list: Vec<Vec<u8>> = Vec::new();
    let len: usize = s.len();
    let mut at: usize = 0;
    proof {
        assert(s@.skip(0) =~= s@);
        assert(views(list@) + chunks(s@, size as nat) =~= chunks(s@, size as nat));
    }
    while at < len
        invariant
            at <= len,
            len == s@.len(),
            size > 0,
            views(list@) + chunks(s@.skip(at as int), size as nat) == chunks(s@, size as nat),
        decreases len - at,
    {
        let ghost before = views(list@);
        let ghost rest = s@.skip(at as int);
        let to: usize = if len - at <= size {
            len
        } else {
            at + size
        };
        let piece: Vec<u8> = copy_range(s, at, to);
        proof {
            if rest.len() <= size {
                assert(piece@ =~= rest);
                assert(s@.skip(to as int) =~= Seq::<u8>::empty());
            } else {
                assert(piece@ =~= rest.take(size as int));
                assert(s@.skip(to as int) =~= rest.skip(size as int));
            }
            assert(chunks(rest, size as nat) =~= seq![piece@] + chunks(
                s@.skip(to as int),
                size as nat,
            ));
        }
        let ghost whole = piece@;
        list.push(piece);
        proof {
            assert(views(list@) =~= before.push(whole));
            assert(views(list@) + chunks(s@.skip(to as int), size as nat) =~= before + (seq![whole]
                + chunks(s@.skip(to as int), size as nat)));
        }
        at = to;
    }
    proof {
        assert(s@.skip(at as int) =~= Seq::<u8>::empty());
        assert(views(list@) + chunks(s@.skip(at as int), size as nat) =~= views(list@));
    }
    list
}

/// Every piece is full but the last, so there are no more pieces than it takes.
pub proof fn law_all_chunks_but_the_last_are_full(s: Seq<u8>, size: nat)
    requires
        size > 0,
    ensures
        forall|i: int|
            0 <= i < chunks(s, size).len() - 1 ==> (#[trigger] chunks(s, size)[i]).len() == size,
        s.len() > 0 ==> chunks(s, size).len() >= 1,
        s.len() <= chunks(s, size).len() * size < s.len() + size,
    decreases s.len(),
{
    let list = chunks(s, size);
    if s.len() > size {
        let rest = s.skip(size as int);
        law_all_chunks_but_the_last_are_full(rest, size);
        let tail = chunks(rest, size);
        assert forall|i: int| 0 <= i < list.len() - 1 implies (#[trigger] list[i]).len()
            == size by {
            if i > 0 {
                assert(list[i] == tail[i - 1]);
            }
        }
        assert(list.len() * size == tail.len() * size + size) by (nonlinear_arith)
            requires
                list.len() == tail.len() + 1,
        ;
    } else {
        assert(list.len() * size == if s.len() == 0 {
            0
        } else {
            size as int
        }) by (nonlinear_arith)
            requires
                s.len() == 0 ==> list.len() == 0,
                s.len() > 0 ==> list.len() == 1,
        ;
    }
}

/// A number in bytes, each byte at its place: most significant first, and the other way round.
pub proof fn law_bytes_have_their_places(x: nat, n: nat)
    ensures
        be_bytes(x, n).len() == n,
        n > 0 ==> be_bytes(x, n).last() == x % 256 && be_bytes(x, n).drop_last() == be_bytes(
            x / 256,
            (n - 1) as nat,
        ),
        n > 0 ==> le_bytes(x, n)[0] == x % 256 && le_bytes(x, n).skip(1) == le_bytes(
            x / 256,
            (n - 1) as nat,
        ),
{
    lemma_be_bytes_len(x, n);
    if n > 0 {
        let shorter = be_bytes(x / 256, (n - 1) as nat);
        lemma_be_bytes_len(x / 256, (n - 1) as nat);
        assert(be_bytes(x, n).drop_last() =~= shorter);
        assert(le_bytes(x, n).skip(1) =~= shorter.reverse());
    }
}

} // verus!
