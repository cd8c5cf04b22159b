//! The framing of the write-ahead log on disk.
//!
//! The log is a sequence of records, each one a body of bytes preceded by
//! its length as a 4-byte little-endian `u32`. What a body holds (a JSON
//! object) is decided by whoever writes it; this module only frames bodies
//! and finds them again. A length above `MAX_RECORD_SIZE` is rejected before
//! anything is allocated for it, so a corrupt log cannot exhaust memory.

use vstd::prelude::*;
use vstd::string::StringExecFns;
use crate::error::{LsError, LsErrorView, LsResult};
use crate::text::{nat_text, push_u64_text};

verus! {

/// Largest single record body accepted when the log is read back.
pub const MAX_RECORD_SIZE: usize = 67108864;

/// The four bytes of `n` (below 2^32), least significant first.
pub open spec fn le32_bytes(n: nat) -> Seq<u8> {
    seq![
        (n % 256) as u8,
        ((n / 256) % 256) as u8,
        ((n / 65536) % 256) as u8,
        ((n / 16777216) % 256) as u8,
    ]
}

/// The number that four bytes stand for, least significant first.
pub open spec fn le32_value(b0: u8, b1: u8, b2: u8, b3: u8) -> nat {
    (b0 + 256 * b1 + 65536 * b2 + 16777216 * b3) as nat
}

/// One record on disk: the length of the body, then the body.
pub open spec fn frame(body: Seq<u8>) -> Seq<u8> {
    le32_bytes(body.len()) + body
}

/// The records on disk for the bodies, in order.
pub open spec fn frames_of(bodies: Seq<Seq<u8>>) -> Seq<u8>
    decreases bodies.len(),
{
    if bodies.len() == 0 {
        Seq::empty()
    } else {
        frame(bodies[0]) + frames_of(bodies.drop_first())
    }
}

/// The length that the header at `pos` announces.
pub open spec fn header_len(bytes: Seq<u8>, pos: int) -> nat {
    le32_value(bytes[pos], bytes[pos + 1], bytes[pos + 2], bytes[pos + 3])
}

pub open spec fn oversize_message(len: nat) -> Seq<char> {
    "record length "@ + nat_text(len) + " exceeds the 67108864 byte limit, refusing to allocate"@
}

pub open spec fn truncated_message() -> Seq<char> {
    "truncated record: failed to fill whole buffer"@
}

/// What reading one record at `pos` gives: nothing when fewer than four
/// bytes are left (a header cut short counts as the end of the log), an
/// error for an oversized or cut-off body, else where the body starts and
/// ends.
pub open spec fn next_frame_spec(bytes: Seq<u8>, pos: int) -> Result<Option<(int, int)>, LsErrorView> {
    if bytes.len() < pos + 4 {
        Ok(None)
    } else {
        let len = header_len(bytes, pos);
        if len > MAX_RECORD_SIZE {
            Err(LsErrorView::Storage(oversize_message(len)))
        } else if bytes.len() < pos + 4 + len {
            Err(LsErrorView::Storage(truncated_message()))
        } else {
            Ok(Some((pos + 4, pos + 4 + len)))
        }
    }
}

/// The bodies of the records from `pos` to the end of the log, or the
/// first error met on the way.
pub open spec fn decode_from(bytes: Seq<u8>, pos: int) -> Result<Seq<Seq<u8>>, LsErrorView>
    decreases bytes.len() - pos,
{
    match next_frame_spec(bytes, pos) {
        Err(e) => Err(e),
        Ok(None) => Ok(Seq::empty()),
        Ok(Some((start, end))) => {
            if end <= pos {
                Ok(Seq::empty())
            } else {
                match decode_from(bytes, end) {
                    Err(e) => Err(e),
                    Ok(rest) => Ok(seq![bytes.subrange(start, end)] + rest),
                }
            }
        },
    }
}

pub open spec fn bodies_view(bodies: Seq<Vec<u8>>) -> Seq<Seq<u8>> {
    bodies.map_values(|b: Vec<u8>| b@)
}

/// A copy of `bytes[start..end]`.
fn copy_range(bytes: &Vec<u8>, start: usize, end: usize) -> (r: Vec<u8>)
    requires
        start <= end <= bytes.len(),
    ensures
        r@ == bytes@.subrange(start as int, end as int),
{
    let mut r: Vec<u8> = Vec::new();
    let mut i: usize = start;
    while i < end
        invariant
            start <= i <= end <= bytes.len(),
            r@ == bytes@.subrange(start as int, i as int),
        decreases end - i,
    {
        r.push(bytes[i]);
        assert(bytes@.subrange(start as int, i + 1) =~= bytes@.subrange(start as int, i as int).push(bytes@[i as int]));
        i = i + 1;
    }
    r
}

proof fn lemma_le32_roundtrip(n: nat)
    requires
        n <= u32::MAX,
    ensures
        ({
            let b = le32_bytes(n);
            le32_value(b[0], b[1], b[2], b[3]) == n
        }),
{
    let b0 = n % 256;
    let b1 = (n / 256) % 256;
    let b2 = (n / 65536) % 256;
    let b3 = (n / 16777216) % 256;
    assert(n / 16777216 < 256);
    assert(b3 == n / 16777216);
    assert(n == b0 + 256 * b1 + 65536 * b2 + 16777216 * b3) by (nonlinear_arith)
        requires
            b0 == n % 256,
            b1 == (n / 256) % 256,
            b2 == (n / 65536) % 256,
            b3 == n / 16777216,
    ;
}

/// The header that frames a body of `len` bytes.
fn le32_header(len: u32) -> (r: Vec<u8>)
    ensures
        r@ == le32_bytes(len as nat),
{
    let mut r: Vec<u8> = Vec::new();
    r.push((len % 256) as u8);
    r.push(((len / 256) % 256) as u8);
    r.push(((len / 65536) % 256) as u8);
    r.push(((len / 16777216) % 256) as u8);
    assert(r@ =~= le32_bytes(len as nat));
    r
}

/// The bytes that store one record body in the log: its length, then the
/// body itself.
pub fn encode_frame(body: &Vec<u8>) -> (r: Vec<u8>)
    requires
        body.len() <= u32::MAX,
    ensures
        r@ == frame(body@),
{
    let mut r = le32_header(body.len() as u32);
    let mut i: usize = 0;
    while i < body.len()
        invariant
            i <= body.len(),
            r@ == le32_bytes(body@.len()) + body@.take(i as int),
        decreases body.len() - i,
    {
        r.push(body[i]);
        assert(body@.take(i + 1) =~= body@.take(i as int).push(body@[i as int]));
        i = i + 1;
    }
    assert(body@.take(body@.len() as int) =~= body@);
    r
}

/// Reads the header of the record at `pos` and says where its body lies.
pub fn next_frame(bytes: &Vec<u8>, pos: usize) -> (r: LsResult<Option<(usize, usize)>>)
    requires
        pos <= bytes.len(),
    ensures
        match r {
            Ok(None) => next_frame_spec(bytes@, pos as int) == Ok::<Option<(int, int)>, LsErrorView>(None),
            Ok(Some((s, e))) => next_frame_spec(bytes@, pos as int)
                == Ok::<Option<(int, int)>, LsErrorView>(Some((s as int, e as int))),
            Err(err) => next_frame_spec(bytes@, pos as int) == Err::<Option<(int, int)>, LsErrorView>(err@),
        },
{
    if bytes.len() - pos < 4 {
        return Ok(None);
    }
    let len: u64 = bytes[pos] as u64 + 256 * (bytes[pos + 1] as u64) + 65536 * (bytes[pos + 2] as u64)
        + 16777216 * (bytes[pos + 3] as u64);
    assert(len == header_len(bytes@, pos as int));
    if len > MAX_RECORD_SIZE as u64 {
        let mut m = String::from_str("record length ");
        push_u64_text(&mut m, len);
        m.append(" exceeds the 67108864 byte limit, refusing to allocate");
        return Err(LsError::Storage(m));
    }
    let start = pos + 4;
    if ((bytes.len() - start) as u64) < len {
        return Err(LsError::Storage(String::from_str("truncated record: failed to fill whole buffer")));
    }
    Ok(Some((start, start + len as usize)))
}

/// Splits a whole log into the bodies of its records, in order. A header
/// cut short at the very end is taken as the end of the log.
pub fn decode_frames(bytes: &Vec<u8>) -> (r: LsResult<Vec<Vec<u8>>>)
    ensures
        match r {
            Ok(bodies) => decode_from(bytes@, 0) == Ok::<Seq<Seq<u8>>, LsErrorView>(bodies_view(bodies@)),
            Err(e) => decode_from(bytes@, 0) == Err::<Seq<Seq<u8>>, LsErrorView>(e@),
        },
{
    let mut bodies: Vec<Vec<u8>> = Vec::new();
    let mut pos: usize = 0;
    loop
        invariant
            pos <= bytes.len(),
            decode_from(bytes@, 0) == match decode_from(bytes@, pos as int) {
                Ok(rest) => Ok::<Seq<Seq<u8>>, LsErrorView>(bodies_view(bodies@) + rest),
                Err(e) => Err(e),
            },
        decreases bytes.len() - pos,
    {
        match next_frame(bytes, pos) {
            Err(e) => {
                return Err(e);
            },
            Ok(None) => {
                assert(bodies_view(bodies@) + Seq::<Seq<u8>>::empty() =~= bodies_view(bodies@));
                return Ok(bodies);
            },
            Ok(Some((start, end))) => {
                let body = copy_range(bytes, start, end);
                let ghost old_bodies = bodies@;
                bodies.push(body);
                proof {
                    assert(bodies_view(bodies@) =~= bodies_view(old_bodies).push(body@));
                    let later = decode_from(bytes@, end as int);
                    match later {
                        Ok(rest) => {
                            assert(bodies_view(old_bodies) + (seq![body@] + rest)
                                =~= bodies_view(bodies@) + rest);
                        },
                        Err(_) => {},
                    }
                }
                pos = end;
            },
        }
    }
}

proof fn lemma_decode_framed(prefix: Seq<u8>, bodies: Seq<Seq<u8>>, tail: Seq<u8>)
    requires
        forall|i: int| 0 <= i < bodies.len() ==> #[trigger] bodies[i].len() <= MAX_RECORD_SIZE,
        tail.len() < 4,
    ensures
        decode_from(prefix + frames_of(bodies) + tail, prefix.len() as int)
            == Ok::<Seq<Seq<u8>>, LsErrorView>(bodies),
    decreases bodies.len(),
{
    let bytes = prefix + frames_of(bodies) + tail;
    let pos = prefix.len() as int;
    if bodies.len() == 0 {
        assert(bytes =~= prefix + tail);
        assert(next_frame_spec(bytes, pos) == Ok::<Option<(int, int)>, LsErrorView>(None));
        assert(decode_from(bytes, pos) == Ok::<Seq<Seq<u8>>, LsErrorView>(Seq::empty()));
        assert(bodies =~= Seq::<Seq<u8>>::empty());
    } else {
        let b = bodies[0];
        let rest = bodies.drop_first();
        assert(rest.len() < bodies.len());
        assert forall|i: int| 0 <= i < rest.len() implies #[trigger] rest[i].len() <= MAX_RECORD_SIZE by {
            assert(rest[i] == bodies[i + 1]);
        }
        let header = le32_bytes(b.len());
        let next = prefix + frame(b);
        assert(bytes =~= next + frames_of(rest) + tail);
        assert(bytes[pos] == header[0]);
        assert(bytes[pos + 1] == header[1]);
        assert(bytes[pos + 2] == header[2]);
        assert(bytes[pos + 3] == header[3]);
        lemma_le32_roundtrip(b.len());
        assert(header_len(bytes, pos) == b.len());
        assert(bytes.subrange(pos + 4, pos + 4 + b.len()) =~= b);
        lemma_decode_framed(next, rest, tail);
        assert(next.len() == pos + 4 + b.len());
        assert(seq![b] + rest =~= bodies);
        assert(next_frame_spec(bytes, pos) == Ok::<Option<(int, int)>, LsErrorView>(Some((pos + 4, pos + 4 + b.len()))));
        assert(decode_from(bytes, pos + 4 + b.len()) == Ok::<Seq<Seq<u8>>, LsErrorView>(rest));
        assert(decode_from(bytes, pos) == Ok::<Seq<Seq<u8>>, LsErrorView>(seq![bytes.subrange(pos + 4, pos + 4 + b.len())] + rest));
    }
}

/// Reading a log back gives exactly the record bodies that were written to
/// it, in the order they were written, as long as each body is within
/// `MAX_RECORD_SIZE`; a header cut short at the end (a write that stopped
/// within its first four bytes) is ignored.
pub proof fn law_log_reads_back(bodies: Seq<Seq<u8>>, tail: Seq<u8>)
    requires
        forall|i: int| 0 <= i < bodies.len() ==> #[trigger] bodies[i].len() <= MAX_RECORD_SIZE,
        tail.len() < 4,
    ensures
        decode_from(frames_of(bodies) + tail, 0) == Ok::<Seq<Seq<u8>>, LsErrorView>(bodies),
{
    lemma_decode_framed(Seq::empty(), bodies, tail);
    assert(Seq::<u8>::empty() + frames_of(bodies) + tail =~= frames_of(bodies) + tail);
}


/// The length of the body that a record header announces, refused when it
/// is over `MAX_RECORD_SIZE`, before anything is allocated for the body.
pub fn record_length(header: &Vec<u8>) -> (r: LsResult<usize>)
    requires
        header.len() == 4,
    ensures
        match r {
            Ok(n) => n == header_len(header@, 0) && n <= MAX_RECORD_SIZE,
            Err(e) => header_len(header@, 0) > MAX_RECORD_SIZE
                && e@ == LsErrorView::Storage(oversize_message(header_len(header@, 0))),
        },
{
    let len: u64 = header[0] as u64 + 256 * (header[1] as u64) + 65536 * (header[2] as u64)
        + 16777216 * (header[3] as u64);
    if len > MAX_RECORD_SIZE as u64 {
        let mut m = String::from_str("record length ");
        push_u64_text(&mut m, len);
        m.append(" exceeds the 67108864 byte limit, refusing to allocate");
        return Err(LsError::Storage(m));
    }
    Ok(len as usize)
}

} // verus!
