//! The wire format: a frame is a four-byte big-endian length field followed
//! by exactly that many payload bytes.  The length field describes the
//! payload length only, excluding itself.

use vstd::prelude::*;

verus! {

/// Value of four bytes read as a big-endian unsigned integer.
pub open spec fn be32_value(b: Seq<u8>) -> nat
    recommends
        b.len() == 4,
{
    (b[0] as nat) * 0x1000000 + (b[1] as nat) * 0x10000 + (b[2] as nat) * 0x100 + (b[3] as nat)
}

/// The four big-endian bytes of a value below 2^32.
pub open spec fn be32_bytes(n: nat) -> Seq<u8>
    recommends
        n < 0x100000000,
{
    seq![
        ((n / 0x1000000) % 0x100) as u8,
        ((n / 0x10000) % 0x100) as u8,
        ((n / 0x100) % 0x100) as u8,
        (n % 0x100) as u8,
    ]
}

/// A whole frame: the length field followed by the payload.
pub open spec fn frame_of(p: Seq<u8>) -> Seq<u8>
    recommends
        p.len() < 0x100000000,
{
    be32_bytes(p.len()) + p
}

/// What one decode step yields on a buffer: `None` while the buffer holds
/// fewer than four bytes, or a complete length field but not yet the whole
/// payload it announces; otherwise the payload together with how many bytes
/// the step consumes from the front (the length field plus the payload).
pub open spec fn parse_one(b: Seq<u8>) -> Option<(Seq<u8>, int)> {
    if b.len() < 4 {
        None
    } else {
        let l = be32_value(b.subrange(0, 4)) as int;
        if b.len() < 4 + l {
            None
        } else {
            Some((b.subrange(4, 4 + l), 4 + l))
        }
    }
}

/// Every complete frame a buffer holds, in order, together with the
/// remainder: the bytes left once no further complete frame stands at the
/// front.
pub open spec fn drain(b: Seq<u8>) -> (Seq<Seq<u8>>, Seq<u8>)
    decreases b.len(),
{
    match parse_one(b) {
        None => (Seq::empty(), b),
        Some((p, c)) => {
            // A parsed frame consumes at least its four-byte length field
            // and never more than the buffer; the guard makes the recursion
            // visibly decreasing, and its other branch is never taken.
            if 0 < c <= b.len() {
                let rec = drain(b.subrange(c, b.len() as int));
                (seq![p] + rec.0, rec.1)
            } else {
                (Seq::empty(), b)
            }
        },
    }
}

/// The payloads framed one after the other.
pub open spec fn frames_concat(ps: Seq<Seq<u8>>) -> Seq<u8>
    decreases ps.len(),
{
    if ps.len() == 0 {
        Seq::empty()
    } else {
        frame_of(ps[0]) + frames_concat(ps.drop_first())
    }
}

/// The views of a vector of payloads.
pub open spec fn views_of(ps: Seq<Vec<u8>>) -> Seq<Seq<u8>> {
    ps.map_values(|p: Vec<u8>| p@)
}

/// Reads four bytes as a big-endian unsigned integer.
pub fn be32_decode(b0: u8, b1: u8, b2: u8, b3: u8) -> (n: u32)
    ensures
        n as nat == be32_value(seq![b0, b1, b2, b3]),
{
    (b0 as u32) * 0x1000000 + (b1 as u32) * 0x10000 + (b2 as u32) * 0x100 + (b3 as u32)
}

/// Writes a value as four big-endian bytes.
pub fn be32_encode(n: u32) -> (r: Vec<u8>)
    ensures
        r@ == be32_bytes(n as nat),
{
    let mut r: Vec<u8> = Vec::new();
    r.push(((n / 0x1000000) % 0x100) as u8);
    r.push(((n / 0x10000) % 0x100) as u8);
    r.push(((n / 0x100) % 0x100) as u8);
    r.push((n % 0x100) as u8);
    proof {
        assert(r@ =~= be32_bytes(n as nat));
    }
    r
}

/// The length field comes back unchanged from its four-byte encoding.
pub proof fn lemma_be32_round_trip(n: u32)
    ensures
        be32_bytes(n as nat).len() == 4,
        be32_value(be32_bytes(n as nat)) == n as nat,
{
    assert(((n / 0x1000000) % 0x100) * 0x1000000 + ((n / 0x10000) % 0x100) * 0x10000 + ((n
        / 0x100) % 0x100) * 0x100 + (n % 0x100) == n) by (bit_vector);
}

/// A complete frame at the front of a buffer is untouched by whatever bytes
/// arrive after it.
pub proof fn lemma_parse_one_append(b: Seq<u8>, ext: Seq<u8>)
    requires
        parse_one(b) is Some,
    ensures
        parse_one(b + ext) == parse_one(b),
{
    assert((b + ext).subrange(0, 4) =~= b.subrange(0, 4));
    let l = be32_value(b.subrange(0, 4)) as int;
    assert((b + ext).subrange(4, 4 + l) =~= b.subrange(4, 4 + l));
}

/// Round trip: a frame built from a payload decodes back to exactly that
/// payload, consuming exactly the frame.  With a serializer and a
/// deserializer that are mutual inverses, a message therefore comes back
/// unchanged from encoding and decoding.
pub proof fn lemma_frame_round_trip(p: Seq<u8>)
    requires
        p.len() <= u32::MAX,
    ensures
        frame_of(p).len() == 4 + p.len(),
        parse_one(frame_of(p)) == Some((p, 4 + p.len() as int)),
{
    lemma_be32_round_trip(p.len() as u32);
    let f = frame_of(p);
    assert(f.subrange(0, 4) =~= be32_bytes(p.len()));
    assert(f.subrange(4, 4 + p.len() as int) =~= p);
}

/// Fragmentation independence: feeding a buffer in two pieces, draining in
/// between, yields the same payloads and the same remainder as feeding it
/// whole.  Applied repeatedly, the decoded payload sequence is the same for
/// every split of the input into chunks, down to single bytes.
pub proof fn lemma_fragmentation_independence(c1: Seq<u8>, c2: Seq<u8>)
    ensures
        drain(c1).0 + drain(drain(c1).1 + c2).0 == drain(c1 + c2).0,
        drain(drain(c1).1 + c2).1 == drain(c1 + c2).1,
    decreases c1.len(),
{
    match parse_one(c1) {
        None => {
            assert(drain(c1) == (Seq::<Seq<u8>>::empty(), c1));
            assert(Seq::<Seq<u8>>::empty() + drain(c1 + c2).0 =~= drain(c1 + c2).0);
        },
        Some((p, c)) => {
            lemma_parse_one_append(c1, c2);
            let c1r = c1.subrange(c, c1.len() as int);
            assert((c1 + c2).subrange(c, (c1 + c2).len() as int) =~= c1r + c2);
            lemma_fragmentation_independence(c1r, c2);
            assert(seq![p] + (drain(c1r).0 + drain(drain(c1r).1 + c2).0) =~= (seq![p] + drain(
                c1r,
            ).0) + drain(drain(c1r).1 + c2).0);
        },
    }
}

/// What is left after draining never holds a complete frame.
pub proof fn lemma_drain_rest_incomplete(b: Seq<u8>)
    ensures
        parse_one(drain(b).1) is None,
    decreases b.len(),
{
    match parse_one(b) {
        None => {
        },
        Some((p, c)) => {
            lemma_drain_rest_incomplete(b.subrange(c, b.len() as int));
        },
    }
}

/// The chunks laid end to end.
pub open spec fn concat_chunks(chunks: Seq<Seq<u8>>) -> Seq<u8>
    decreases chunks.len(),
{
    if chunks.len() == 0 {
        Seq::empty()
    } else {
        chunks[0] + concat_chunks(chunks.drop_first())
    }
}

/// Feeding the chunks one at a time into a buffer that starts with `rest`,
/// draining after each: all payloads decoded along the way, in order, and
/// the final remainder.
pub open spec fn drain_chunked(chunks: Seq<Seq<u8>>, rest: Seq<u8>) -> (Seq<Seq<u8>>, Seq<u8>)
    decreases chunks.len(),
{
    if chunks.len() == 0 {
        (Seq::empty(), rest)
    } else {
        let step = drain(rest + chunks[0]);
        let rec = drain_chunked(chunks.drop_first(), step.1);
        (step.0 + rec.0, rec.1)
    }
}

/// Fragmentation independence in full: however a byte stream is cut into
/// chunks — down to single bytes — feeding them one at a time yields the
/// same payloads, in the same order, and the same remainder as feeding the
/// stream whole.  `rest` is what an earlier drain left over, so it holds no
/// complete frame; a fresh connection starts from the empty remainder.
pub proof fn lemma_chunked_equals_whole(chunks: Seq<Seq<u8>>, rest: Seq<u8>)
    requires
        parse_one(rest) is None,
    ensures
        drain_chunked(chunks, rest).0 == drain(rest + concat_chunks(chunks)).0,
        drain_chunked(chunks, rest).1 == drain(rest + concat_chunks(chunks)).1,
    decreases chunks.len(),
{
    if chunks.len() == 0 {
        assert(rest + concat_chunks(chunks) =~= rest);
        assert(drain(rest) == (Seq::<Seq<u8>>::empty(), rest));
        assert(drain_chunked(chunks, rest).0 =~= drain(rest).0);
    } else {
        let c0 = chunks[0];
        let cs = chunks.drop_first();
        let step = drain(rest + c0);
        assert(rest + concat_chunks(chunks) =~= (rest + c0) + concat_chunks(cs));
        lemma_fragmentation_independence(rest + c0, concat_chunks(cs));
        lemma_drain_rest_incomplete(rest + c0);
        lemma_chunked_equals_whole(cs, step.1);
        assert(step.0 + (drain_chunked(cs, step.1).0) =~= drain((rest + c0) + concat_chunks(
            cs,
        )).0);
    }
}

/// Multi-frame draining: a buffer holding any number of complete frames,
/// concatenated, drains to exactly their payloads, in order, with nothing
/// left over and no further bytes needed.
pub proof fn lemma_multi_frame_drain(ps: Seq<Seq<u8>>)
    requires
        forall|i: int| 0 <= i < ps.len() ==> #[trigger] ps[i].len() <= u32::MAX,
    ensures
        drain(frames_concat(ps)).0 == ps,
        drain(frames_concat(ps)).1 == Seq::<u8>::empty(),
    decreases ps.len(),
{
    if ps.len() == 0 {
        assert(drain(frames_concat(ps)).0 =~= ps);
    } else {
        let p0 = ps[0];
        let rest = frames_concat(ps.drop_first());
        lemma_frame_round_trip(p0);
        lemma_parse_one_append(frame_of(p0), rest);
        let b = frames_concat(ps);
        let c = 4 + p0.len() as int;
        assert(b.subrange(c, b.len() as int) =~= rest);
        lemma_multi_frame_drain(ps.drop_first());
        assert(seq![p0] + ps.drop_first() =~= ps);
    }
}

/// Every payload a buffer drains to fits the four-byte length field.
pub proof fn lemma_drain_payloads_fit(b: Seq<u8>)
    ensures
        forall|i: int|
            0 <= i < drain(b).0.len() ==> #[trigger] drain(b).0[i].len() <= u32::MAX,
    decreases b.len(),
{
    match parse_one(b) {
        None => {
        },
        Some((p, c)) => {
            let rest = b.subrange(c, b.len() as int);
            lemma_drain_payloads_fit(rest);
            assert(be32_value(b.subrange(0, 4)) <= u32::MAX);
            assert forall|i: int| 0 <= i < drain(b).0.len() implies #[trigger] drain(
                b,
            ).0[i].len() <= u32::MAX by {
                if i > 0 {
                    assert(drain(b).0[i] == drain(rest).0[i - 1]);
                }
            }
        },
    }
}

/// Incomplete-prefix safety: a buffer holding fewer than four bytes, or a
/// complete length field but fewer payload bytes than it announces, decodes
/// to nothing and is left exactly as it was.
pub proof fn lemma_incomplete_prefix_safe(b: Seq<u8>)
    requires
        b.len() < 4 || b.len() < 4 + be32_value(b.subrange(0, 4)),
    ensures
        parse_one(b) is None,
        drain(b) == (Seq::<Seq<u8>>::empty(), b),
{
}

/// Framing one more payload appends one more frame.
pub proof fn lemma_frames_concat_push(ps: Seq<Seq<u8>>, p: Seq<u8>)
    ensures
        frames_concat(ps.push(p)) == frames_concat(ps) + frame_of(p),
    decreases ps.len(),
{
    if ps.len() == 0 {
        assert(ps.push(p).drop_first() =~= ps);
        assert(frames_concat(ps.push(p)) =~= frames_concat(ps) + frame_of(p));
    } else {
        assert(ps.push(p).drop_first() =~= ps.drop_first().push(p));
        lemma_frames_concat_push(ps.drop_first(), p);
        assert(frames_concat(ps.push(p)) =~= frames_concat(ps) + frame_of(p));
    }
}

} // verus!
