//! How many bytes a receiver still has to read, and replies that carry several tuples.
//!
//! A tuple message says its own length: the header gives the number of records and the
//! length of the string area. A receiver reads the header, then the rest, and stops at the
//! end of the message; a reply to a dump is a count followed by that many tuple messages.
use vstd::prelude::*;
use vstd::slice::slice_subrange;
use crate::wire::{i32_le, i32_at, ciot};
use crate::tuple::{
    E, Elem, DecodeError, element_count, frame_len, decode_spec, decode_tuple, encode_spec,
};
use crate::roundtrip::{sendable, lemma_decode_encode, lemma_read_header};

verus! {

/// The length that the message starting with `b` has, as far as `b` tells it: the header
/// first, then the whole message.
pub open spec fn frame_target(b: Seq<u8>) -> Result<int, DecodeError> {
    if b.len() < 4 {
        Ok(4)
    } else if i32_at(b, 0) == -1 {
        Ok(4)
    } else if b.len() < 8 {
        Ok(8)
    } else if i32_at(b, 4) < 0 {
        Err(DecodeError::NegativeStringLength)
    } else {
        Ok(frame_len(b))
    }
}

/// How many bytes are missing from `have` to reach `target`.
pub open spec fn missing(target: int, have: int) -> int {
    if target > have {
        target - have
    } else {
        0
    }
}

/// The length that the message beginning with `received` has, as far as `received` tells it.
fn tuple_frame_target(received: &[u8]) -> (r: Result<u64, DecodeError>)
    ensures
        match r {
            Ok(x) => frame_target(received@) == Ok::<int, DecodeError>(x as int) && x <= 0x10_0000_0000,
            Err(e) => frame_target(received@) == Err::<int, DecodeError>(e),
        },
{
    if received.len() < 4 {
        return Ok(4);
    }
    let count = ciot(received, 0);
    if count == -1 {
        return Ok(4);
    }
    if received.len() < 8 {
        return Ok(8);
    }
    let string_length = ciot(received, 4);
    if string_length < 0 {
        return Err(DecodeError::NegativeStringLength);
    }
    let n: u64 = if count < 0 {
        0
    } else {
        count as u64
    };
    Ok(8 + 24 * n + string_length as u64)
}

/// How many more bytes a receiver must read to hold the whole tuple message that begins
/// with `received`; zero once it holds it.
pub fn tuple_bytes_needed(received: &[u8]) -> (r: Result<u64, DecodeError>)
    ensures
        match r {
            Ok(k) => frame_target(received@) matches Ok(x) && k == missing(x, received@.len() as int),
            Err(e) => frame_target(received@) == Err::<int, DecodeError>(e),
        },
{
    let len: u64 = received.len() as u64;
    let x = tuple_frame_target(received)?;
    if x > len {
        Ok(x - len)
    } else {
        Ok(0)
    }
}

/// The number of tuples a dump reply announces, negative counts read as none.
pub open spec fn dump_count(b: Seq<u8>) -> int {
    if i32_at(b, 0) < 0 {
        0
    } else {
        i32_at(b, 0) as int
    }
}

/// Where the first `k` tuple messages of a dump reply end, as far as `b` tells it; past
/// the end of `b` as soon as a message is not all there.
pub open spec fn dump_walk(b: Seq<u8>, k: int) -> Result<int, DecodeError>
    decreases k,
{
    if k <= 0 {
        Ok(4)
    } else {
        match dump_walk(b, k - 1) {
            Err(e) => Err(e),
            Ok(pos) => if pos > b.len() {
                Ok(pos)
            } else {
                match frame_target(b.subrange(pos, b.len() as int)) {
                    Err(e) => Err(e),
                    Ok(x) => Ok(pos + x),
                }
            },
        }
    }
}

/// The length that the dump reply starting with `b` has, as far as `b` tells it.
pub open spec fn dump_target(b: Seq<u8>) -> Result<int, DecodeError> {
    if b.len() < 4 {
        Ok(4)
    } else {
        dump_walk(b, dump_count(b))
    }
}

/// Once the walk has left `b`, it stays outside.
proof fn lemma_dump_walk_past(b: Seq<u8>, k1: int, k2: int)
    requires
        k1 <= k2,
        dump_walk(b, k1) matches Ok(p) && p > b.len(),
    ensures
        dump_walk(b, k2) == dump_walk(b, k1),
    decreases k2 - k1,
{
    if k1 < k2 {
        lemma_dump_walk_past(b, k1, k2 - 1);
    }
}

/// Once the walk fails, it fails the same way.
proof fn lemma_dump_walk_err(b: Seq<u8>, k1: int, k2: int)
    requires
        k1 <= k2,
        dump_walk(b, k1) is Err,
    ensures
        dump_walk(b, k2) == dump_walk(b, k1),
    decreases k2 - k1,
{
    if k1 < k2 {
        lemma_dump_walk_err(b, k1, k2 - 1);
    }
}

/// How many more bytes a receiver must read to hold the whole dump reply that begins with
/// `received`; zero once it holds it.
pub fn dump_bytes_needed(received: &[u8]) -> (r: Result<u64, DecodeError>)
    ensures
        match r {
            Ok(k) => dump_target(received@) matches Ok(x) && k == missing(x, received@.len() as int),
            Err(e) => dump_target(received@) == Err::<int, DecodeError>(e),
        },
{
    let ghost b = received@;
    let len: u64 = received.len() as u64;
    if received.len() < 4 {
        return Ok(4 - len);
    }
    let count = ciot(received, 0);
    let n: u64 = if count < 0 {
        0
    } else {
        count as u64
    };
    let mut pos: usize = 4;
    let mut i: u64 = 0;
    while i < n
        invariant
            b == received@,
            b.len() >= 4,
            i <= n,
            n == dump_count(b),
            pos <= received@.len(),
            dump_walk(b, i as int) == Ok::<int, DecodeError>(pos as int),
        decreases n - i,
    {
        let rest = slice_subrange(received, pos, received.len());
        match tuple_frame_target(rest) {
            Err(e) => {
                proof {
                    lemma_dump_walk_err(b, i + 1, n as int);
                }
                return Err(e);
            },
            Ok(x) => {
                if x > rest.len() as u64 {
                    assert(dump_walk(b, i + 1) == Ok::<int, DecodeError>(pos + x));
                    proof {
                        lemma_dump_walk_past(b, i + 1, n as int);
                    }
                    return Ok(x - rest.len() as u64);
                }
                pos = pos + (x as usize);
                i = i + 1;
            },
        }
    }
    Ok(0)
}

/// The first `k` tuples of a dump reply, with the position where they end.
pub open spec fn decode_dump_prefix(b: Seq<u8>, k: int) -> Result<
    (Seq<Seq<Elem>>, int),
    DecodeError,
>
    decreases k,
{
    if k <= 0 {
        Ok((seq![], 4))
    } else {
        match decode_dump_prefix(b, k - 1) {
            Err(e) => Err(e),
            Ok((ts, pos)) => match decode_spec(b.subrange(pos, b.len() as int)) {
                Err(e) => Err(e),
                Ok((t, used)) => Ok((ts.push(t), pos + used)),
            },
        }
    }
}

/// The tuples that a dump reply `b` carries, with the number of bytes it takes.
pub open spec fn decode_dump_spec(b: Seq<u8>) -> Result<(Seq<Seq<Elem>>, int), DecodeError> {
    if b.len() < 4 {
        Err(DecodeError::Truncated)
    } else {
        decode_dump_prefix(b, dump_count(b))
    }
}

/// Once decoding the tuples of a dump fails, it fails the same way.
proof fn lemma_dump_prefix_err(b: Seq<u8>, k1: int, k2: int)
    requires
        k1 <= k2,
        decode_dump_prefix(b, k1) is Err,
    ensures
        decode_dump_prefix(b, k2) == decode_dump_prefix(b, k1),
    decreases k2 - k1,
{
    if k1 < k2 {
        lemma_dump_prefix_err(b, k1, k2 - 1);
    }
}

/// Decoded tuples end within the bytes they came from.
proof fn lemma_decode_spec_within(b: Seq<u8>)
    ensures
        decode_spec(b) matches Ok((t, used)) ==> 0 <= used <= b.len(),
{
    reveal(decode_spec);
}

/// Reads the tuples of a dump reply: a count, then that many tuple messages.
pub fn decode_tuples(bytes: &[u8]) -> (r: Result<(Vec<Vec<E>>, usize), DecodeError>)
    ensures
        match r {
            Ok((ts, n)) => decode_dump_spec(bytes@) == Ok::<(Seq<Seq<Elem>>, int), DecodeError>(
                (ts.deep_view(), n as int),
            ),
            Err(e) => decode_dump_spec(bytes@) == Err::<(Seq<Seq<Elem>>, int), DecodeError>(e),
        },
{
    let ghost b = bytes@;
    if bytes.len() < 4 {
        return Err(DecodeError::Truncated);
    }
    let count = ciot(bytes, 0);
    let n: u64 = if count < 0 {
        0
    } else {
        count as u64
    };
    let mut result: Vec<Vec<E>> = Vec::new();
    let mut pos: usize = 4;
    let mut i: u64 = 0;
    assert(result.deep_view() =~= seq![]);
    while i < n
        invariant
            b == bytes@,
            b.len() >= 4,
            i <= n,
            n == dump_count(b),
            pos <= bytes@.len(),
            decode_dump_prefix(b, i as int) == Ok::<(Seq<Seq<Elem>>, int), DecodeError>(
                (result.deep_view(), pos as int),
            ),
        decreases n - i,
    {
        let rest = slice_subrange(bytes, pos, bytes.len());
        match decode_tuple(rest) {
            Err(e) => {
                assert(rest@ == b.subrange(pos as int, b.len() as int));
                assert(decode_dump_prefix(b, i + 1) == Err::<(Seq<Seq<Elem>>, int), DecodeError>(e));
                proof {
                    lemma_dump_prefix_err(b, i + 1, n as int);
                }
                return Err(e);
            },
            Ok((t, used)) => {
                proof {
                    lemma_decode_spec_within(rest@);
                }
                let ghost prev = result.deep_view();
                result.push(t);
                assert(result.deep_view() =~= prev.push(t.deep_view()));
                pos = pos + used;
                i = i + 1;
            },
        }
    }
    Ok((result, pos))
}

/// Law: a receiver that reads the bytes the frame rule asks for holds exactly the message
/// of the tuple that was sent: at every point short of the end it asks for more, never for
/// bytes past the end, and at the end for nothing more.
pub proof fn lemma_frame_reads_message(t: Seq<Elem>, j: int)
    requires
        t.len() <= i32::MAX,
        crate::tuple::strings_fit(t),
        0 <= j <= encode_spec(t).len(),
    ensures
        frame_target(encode_spec(t).subrange(0, j)) matches Ok(x) && x <= encode_spec(t).len()
            && (j < encode_spec(t).len() ==> j < x) && (j == encode_spec(t).len() ==> x == j),
{
    let m = encode_spec(t);
    lemma_read_header(t, seq![]);
    assert(m + seq![] =~= m);
    let p = m.subrange(0, j);
    if j >= 4 {
        assert(i32_at(p, 0) == i32_at(m, 0));
    }
    if j >= 8 {
        assert(i32_at(p, 4) == i32_at(m, 4));
        assert(element_count(p) == element_count(m));
    }
}

/// Law: once a receiver holds the bytes the frame rule asks for, decoding them does not find
/// them short, and takes exactly those bytes.
pub proof fn lemma_frame_then_decode(b: Seq<u8>)
    requires
        frame_target(b) matches Ok(x) && x <= b.len(),
    ensures
        decode_spec(b) != Err::<(Seq<Elem>, int), DecodeError>(DecodeError::Truncated),
        decode_spec(b) matches Ok((t, used)) ==> frame_target(b) == Ok::<int, DecodeError>(used),
{
    reveal(decode_spec);
    if b.len() >= 8 && i32_at(b, 0) != -1 && i32_at(b, 4) > 0 {
        let (t, d) = crate::tuple::read_records(b, element_count(b));
        lemma_fill_not_truncated(
            t,
            d,
            b.subrange(crate::tuple::body_end(b), frame_len(b)),
            element_count(b),
        );
    }
}

/// Filling in strings never finds the bytes short.
proof fn lemma_fill_not_truncated(
    t: Seq<Elem>,
    d: Seq<crate::tuple::StrDesc>,
    space: Seq<u8>,
    k: int,
)
    ensures
        crate::tuple::fill_strings(t, d, space, k) != Err::<Seq<Elem>, DecodeError>(
            DecodeError::Truncated,
        ),
    decreases k,
{
    if k > 0 {
        lemma_fill_not_truncated(t, d, space, k - 1);
    }
}

/// Regrouping a concatenation around one of its parts.
proof fn lemma_regroup(a: Seq<u8>, w: Seq<u8>, r: Seq<u8>, p: Seq<u8>, e: Seq<u8>, tl: Seq<u8>)
    requires
        w == p + e + tl,
    ensures
        a + w + r == (a + p) + (e + (tl + r)),
{
    assert(a + w + r =~= (a + p) + (e + (tl + r)));
}

/// Bytes that follow a prefix are those after it.
proof fn lemma_after_prefix(a: Seq<u8>, c: Seq<u8>)
    ensures
        (a + c).subrange(a.len() as int, (a + c).len() as int) == c,
{
    assert((a + c).subrange(a.len() as int, (a + c).len() as int) =~= c);
}

/// The reply to a dump: a count, then one message per tuple.
pub open spec fn dump_spec(ts: Seq<Seq<Elem>>) -> Seq<u8> {
    i32_le(ts.len() as i32) + dump_body(ts, ts.len() as int)
}

/// The messages of the first `k` tuples of `ts`, one after another.
pub open spec fn dump_body(ts: Seq<Seq<Elem>>, k: int) -> Seq<u8>
    decreases k,
{
    if k <= 0 {
        seq![]
    } else {
        dump_body(ts, k - 1) + encode_spec(ts[k - 1])
    }
}

/// Law: a receiver reads back from a dump reply exactly the tuples that were sent in it,
/// whatever follows it. This holds where the tuple count fits an `i32` and every tuple can
/// be sent and read back (see `sendable`).
pub proof fn lemma_decode_dump(ts: Seq<Seq<Elem>>, rest: Seq<u8>)
    requires
        ts.len() <= i32::MAX,
        forall|i: int| 0 <= i < ts.len() ==> sendable(#[trigger] ts[i]),
    ensures
        decode_dump_spec(dump_spec(ts) + rest) == Ok::<(Seq<Seq<Elem>>, int), DecodeError>(
            (ts, dump_spec(ts).len() as int),
        ),
{
    let b = dump_spec(ts) + rest;
    crate::wire::lemma_i32_le_roundtrip(ts.len() as i32);
    assert(b.subrange(0, 4) =~= i32_le(ts.len() as i32).subrange(0, 4));
    crate::wire::lemma_i32_at_same_bytes(b, 0, i32_le(ts.len() as i32), 0);
    assert(dump_count(b) == ts.len());
    lemma_decode_dump_prefix(ts, rest, ts.len() as int);
    assert(ts.subrange(0, ts.len() as int) =~= ts);
}

/// The first `k` tuples of a dump reply read back as the first `k` tuples sent.

proof fn lemma_decode_dump_prefix(ts: Seq<Seq<Elem>>, rest: Seq<u8>, k: int)
    requires
        ts.len() <= i32::MAX,
        forall|i: int| 0 <= i < ts.len() ==> sendable(#[trigger] ts[i]),
        0 <= k <= ts.len(),
    ensures
        decode_dump_prefix(dump_spec(ts) + rest, k) == Ok::<(Seq<Seq<Elem>>, int), DecodeError>(
            (ts.subrange(0, k), 4 + dump_body(ts, k).len() as int),
        ),
    decreases k,
{
    let b = dump_spec(ts) + rest;
    if k == 0 {
        assert(ts.subrange(0, 0) =~= seq![]);
    } else {
        lemma_decode_dump_prefix(ts, rest, k - 1);
        let head = i32_le(ts.len() as i32) + dump_body(ts, k - 1);
        let pos = 4 + dump_body(ts, k - 1).len() as int;
        let t = ts[k - 1];
        assert(sendable(t));
        let whole = dump_body(ts, ts.len() as int);
        let tail = whole.subrange(dump_body(ts, k).len() as int, whole.len() as int);
        lemma_dump_body_split(ts, k);
        assert(dump_body(ts, k) == dump_body(ts, k - 1) + encode_spec(t));
        let after = encode_spec(t) + (tail + rest);
        lemma_regroup(i32_le(ts.len() as i32), whole, rest, dump_body(ts, k - 1), encode_spec(t), tail);
        assert(b == head + after);
        assert(head.len() == pos);
        lemma_after_prefix(head, after);
        lemma_decode_encode(t, tail + rest);
        lemma_dump_prefix_step(b, k, ts.subrange(0, k - 1), pos, t, encode_spec(t).len() as int);
        assert(ts.subrange(0, k - 1).push(t) =~= ts.subrange(0, k));
    }
}

/// One more tuple read from a dump reply.
proof fn lemma_dump_prefix_step(
    b: Seq<u8>,
    k: int,
    prev: Seq<Seq<Elem>>,
    pos: int,
    t: Seq<Elem>,
    used: int,
)
    requires
        k > 0,
        decode_dump_prefix(b, k - 1) == Ok::<(Seq<Seq<Elem>>, int), DecodeError>((prev, pos)),
        decode_spec(b.subrange(pos, b.len() as int)) == Ok::<(Seq<Elem>, int), DecodeError>(
            (t, used),
        ),
    ensures
        decode_dump_prefix(b, k) == Ok::<(Seq<Seq<Elem>>, int), DecodeError>(
            (prev.push(t), pos + used),
        ),
{
}

/// The messages of all tuples begin with those of the first `k`.
pub proof fn lemma_dump_body_split(ts: Seq<Seq<Elem>>, k: int)
    requires
        0 <= k <= ts.len(),
    ensures
        dump_body(ts, k).len() <= dump_body(ts, ts.len() as int).len(),
        dump_body(ts, ts.len() as int) == dump_body(ts, k) + dump_body(
            ts,
            ts.len() as int,
        ).subrange(dump_body(ts, k).len() as int, dump_body(ts, ts.len() as int).len() as int),
    decreases ts.len() - k,
{
    let whole = dump_body(ts, ts.len() as int);
    if k < ts.len() {
        lemma_dump_body_split(ts, k + 1);
        assert(dump_body(ts, k + 1) == dump_body(ts, k) + encode_spec(ts[k]));
    }
    assert(whole =~= dump_body(ts, k) + whole.subrange(dump_body(ts, k).len() as int, whole.len() as int));
}

/// The frame rule reads only the header of a message: bytes that start with a whole header
/// give the same answer as that header's message.
proof fn lemma_frame_target_prefix(a: Seq<u8>, q: Seq<u8>)
    requires
        a.len() >= 8,
        q.len() >= a.len(),
        q.subrange(0, a.len() as int) == a,
    ensures
        frame_target(q) == frame_target(a),
{
    assert(q.subrange(0, 4) =~= a.subrange(0, 4));
    assert(q.subrange(4, 8) =~= a.subrange(4, 8));
    crate::wire::lemma_i32_at_same_bytes(q, 0, a, 0);
    crate::wire::lemma_i32_at_same_bytes(q, 4, a, 4);
}

/// Every tuple of `ts` has a count and string bytes that fit the `i32` header fields.
pub open spec fn all_fit(ts: Seq<Seq<Elem>>) -> bool {
    forall|i: int|
        0 <= i < ts.len() ==> (#[trigger] ts[i]).len() <= i32::MAX && crate::tuple::strings_fit(
            ts[i],
        )
}

/// Where the walk over the first `k` messages stands on a prefix of a dump reply.
proof fn lemma_dump_walk_prefix(ts: Seq<Seq<Elem>>, j: int, k: int)
    requires
        ts.len() <= i32::MAX,
        all_fit(ts),
        4 <= j <= dump_spec(ts).len(),
        0 <= k <= ts.len(),
    ensures
        ({
            let p = dump_spec(ts).subrange(0, j);
            let e = 4 + dump_body(ts, k).len() as int;
            dump_walk(p, k) matches Ok(x) && (if e <= j {
                x == e
            } else {
                j < x <= e
            })
        }),
    decreases k,
{
    let m = dump_spec(ts);
    let p = m.subrange(0, j);
    if k > 0 {
        lemma_dump_walk_prefix(ts, j, k - 1);
        let t = ts[k - 1];
        assert(t.len() <= i32::MAX && crate::tuple::strings_fit(t));
        let e0 = 4 + dump_body(ts, k - 1).len() as int;
        let et = encode_spec(t).len() as int;
        assert(dump_body(ts, k) == dump_body(ts, k - 1) + encode_spec(t));
        if e0 <= j {
            lemma_dump_body_split(ts, k);
            let whole = dump_body(ts, ts.len() as int);
            let tail = whole.subrange(dump_body(ts, k).len() as int, whole.len() as int);
            lemma_regroup(
                i32_le(ts.len() as i32),
                whole,
                seq![],
                dump_body(ts, k - 1),
                encode_spec(t),
                tail,
            );
            assert(m =~= i32_le(ts.len() as i32) + whole);
            let after = encode_spec(t) + (tail + seq![]);
            assert(m == (i32_le(ts.len() as i32) + dump_body(ts, k - 1)) + after);
            let l = j - e0;
            let q = p.subrange(e0, j);
            assert(q =~= after.subrange(0, l));
            lemma_read_header(t, seq![]);
            if l <= et {
                assert(q =~= encode_spec(t).subrange(0, l));
                lemma_frame_reads_message(t, l);
            } else {
                assert(q.subrange(0, et) =~= encode_spec(t));
                lemma_frame_reads_message(t, et);
                assert(encode_spec(t).subrange(0, et) =~= encode_spec(t));
                lemma_frame_target_prefix(encode_spec(t), q);
            }
        }
    }
}

/// Law: a receiver that reads the bytes the dump rule asks for holds exactly the dump reply
/// that was sent: at every point short of the end it asks for more, never for bytes past the
/// end, and at the end for nothing more.
pub proof fn lemma_dump_frame_reads_reply(ts: Seq<Seq<Elem>>, j: int)
    requires
        ts.len() <= i32::MAX,
        all_fit(ts),
        0 <= j <= dump_spec(ts).len(),
    ensures
        dump_target(dump_spec(ts).subrange(0, j)) matches Ok(x) && x <= dump_spec(ts).len() && (j
            < dump_spec(ts).len() ==> j < x) && (j == dump_spec(ts).len() ==> x == j),
{
    let m = dump_spec(ts);
    let n = ts.len() as int;
    lemma_dump_body_split(ts, 0);
    crate::wire::lemma_i32_le_roundtrip(n as i32);
    if j >= 4 {
        let p = m.subrange(0, j);
        assert(p.subrange(0, 4) =~= i32_le(n as i32).subrange(0, 4));
        crate::wire::lemma_i32_at_same_bytes(p, 0, i32_le(n as i32), 0);
        assert(dump_count(p) == n);
        lemma_dump_walk_prefix(ts, j, n);
    }
}

} // verus!
