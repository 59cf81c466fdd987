//! Journal framing: each record is an 8-byte big-endian length followed by
//! that many payload bytes, and a journal is a sequence of records.
use byteorder::{BigEndian, ByteOrder};
use crate::error::{Error, Result};
use vstd::prelude::*;
use vstd::slice::slice_to_vec;

verus! {

/// The eight big-endian bytes of `n`, most significant first.
#[verifier::opaque]
pub open spec fn be_bytes(n: u64) -> Seq<u8> {
    seq![
        (n >> 56u64) as u8,
        (n >> 48u64) as u8,
        (n >> 40u64) as u8,
        (n >> 32u64) as u8,
        (n >> 24u64) as u8,
        (n >> 16u64) as u8,
        (n >> 8u64) as u8,
        n as u8,
    ]
}

/// The number whose big-endian bytes are the first eight of `b`.
#[verifier::opaque]
pub open spec fn be_value(b: Seq<u8>) -> u64
    recommends
        b.len() >= 8,
{
    (b[0] as u64) << 56u64 | (b[1] as u64) << 48u64 | (b[2] as u64) << 40u64 | (b[3] as u64)
        << 32u64 | (b[4] as u64) << 24u64 | (b[5] as u64) << 16u64 | (b[6] as u64) << 8u64
        | (b[7] as u64)
}

/// Reading back the bytes of a number gives the number.
pub proof fn lemma_be_round_trip(n: u64)
    ensures
        be_value(be_bytes(n)) == n,
{
    reveal(be_bytes);
    reveal(be_value);
    let b = be_bytes(n);
    assert(((((n >> 56u64) as u8) as u64) << 56u64 | (((n >> 48u64) as u8) as u64) << 48u64
        | (((n >> 40u64) as u8) as u64) << 40u64 | (((n >> 32u64) as u8) as u64) << 32u64
        | (((n >> 24u64) as u8) as u64) << 24u64 | (((n >> 16u64) as u8) as u64) << 16u64
        | (((n >> 8u64) as u8) as u64) << 8u64 | ((n as u8) as u64)) == n) by (bit_vector);
}

/// Relies on byteorder's `BigEndian::write_u64`: it stores the big-endian
/// bytes of `n` in the first eight places of the buffer.
#[verifier::external_body]
pub(crate) fn encode_be_u64(n: u64) -> (r: Vec<u8>)
    ensures
        r@ == be_bytes(n),
{
    let mut buf = [0u8; 8];
    BigEndian::write_u64(&mut buf, n);
    buf.to_vec()
}

/// Relies on byteorder's `BigEndian::read_u64`: it reads the first eight
/// bytes of the buffer as a big-endian number, and panics on a shorter one.
#[verifier::external_body]
pub(crate) fn decode_be_u64(b: &[u8]) -> (r: u64)
    requires
        b@.len() >= 8,
    ensures
        r == be_value(b@),
{
    BigEndian::read_u64(b)
}

/// One record: the payload's length as eight big-endian bytes, then the
/// payload.
pub open spec fn frame(p: Seq<u8>) -> Seq<u8> {
    be_bytes(p.len() as u64) + p
}

/// A journal holding the records `rs`, in order.
pub open spec fn frames(rs: Seq<Seq<u8>>) -> Seq<u8>
    decreases rs.len(),
{
    if rs.len() == 0 {
        seq![]
    } else {
        frame(rs[0]) + frames(rs.drop_first())
    }
}

/// Every record's length can be written in eight bytes.
pub open spec fn fits(rs: Seq<Seq<u8>>) -> bool {
    forall|i: int| 0 <= i < rs.len() ==> rs[i].len() <= u64::MAX
}

/// The records of a journal, or `None` where its framing is broken: fewer
/// than eight bytes of a length header, or fewer payload bytes than the
/// header declares.
pub open spec fn parse(b: Seq<u8>) -> Option<Seq<Seq<u8>>>
    decreases b.len(),
{
    if b.len() == 0 {
        Some(seq![])
    } else if b.len() < 8 {
        None
    } else {
        let n = be_value(b) as int;
        if n > b.len() - 8 {
            None
        } else {
            match parse(b.subrange(8 + n, b.len() as int)) {
                Some(rest) => Some(seq![b.subrange(8, 8 + n)] + rest),
                None => None,
            }
        }
    }
}

/// `prefix` followed by the records that `tail` parses to.
pub open spec fn extend_parsed(prefix: Seq<Seq<u8>>, tail: Option<Seq<Seq<u8>>>) -> Option<
    Seq<Seq<u8>>,
> {
    match tail {
        Some(rest) => Some(prefix + rest),
        None => None,
    }
}

/// The eight bytes of a number read back as the number, whatever follows.
pub proof fn lemma_be_value_prefix(n: u64, rest: Seq<u8>)
    ensures
        be_value(be_bytes(n) + rest) == n,
        be_bytes(n).len() == 8,
{
    let b = be_bytes(n) + rest;
    reveal(be_bytes);
    assert forall|i: int| 0 <= i < 8 implies b[i] == be_bytes(n)[i] by {}
    lemma_be_round_trip(n);
    reveal(be_value);
}

/// The number read from bytes depends on their first eight alone.
pub proof fn lemma_be_value_same(a: Seq<u8>, b: Seq<u8>)
    requires
        a.len() >= 8,
        b.len() >= 8,
        forall|i: int| 0 <= i < 8 ==> a[i] == b[i],
    ensures
        be_value(a) == be_value(b),
{
    reveal(be_value);
    assert(a[0] == b[0] && a[1] == b[1] && a[2] == b[2] && a[3] == b[3]);
    assert(a[4] == b[4] && a[5] == b[5] && a[6] == b[6] && a[7] == b[7]);
}

/// The first record of a journal is read back as it was written.
proof fn lemma_parse_first(p: Seq<u8>, rest: Seq<u8>)
    requires
        p.len() <= u64::MAX,
    ensures
        parse(frame(p) + rest) == extend_parsed(seq![p], parse(rest)),
{
    let b = frame(p) + rest;
    lemma_be_value_prefix(p.len() as u64, p + rest);
    assert(b =~= be_bytes(p.len() as u64) + (p + rest));
    let n = p.len() as int;
    assert(b.subrange(8, 8 + n) =~= p);
    assert(b.subrange(8 + n, b.len() as int) =~= rest);
}

/// Parsing a written journal gives back its records.
pub proof fn lemma_parse_frames(rs: Seq<Seq<u8>>)
    requires
        fits(rs),
    ensures
        parse(frames(rs)) == Some(rs),
    decreases rs.len(),
{
    if rs.len() > 0 {
        let tail = rs.drop_first();
        lemma_parse_frames(tail);
        lemma_parse_first(rs[0], frames(tail));
        assert(seq![rs[0]] + tail =~= rs);
    }
}

/// Appending a record to a journal appends its frame to the bytes.
pub proof fn lemma_frames_push(rs: Seq<Seq<u8>>, p: Seq<u8>)
    ensures
        frames(rs.push(p)) == frames(rs) + frame(p),
    decreases rs.len(),
{
    if rs.len() == 0 {
        assert(rs.push(p).drop_first() =~= seq![]);
        assert(frames(rs.push(p).drop_first()) =~= seq![]);
        assert(frames(rs.push(p)) =~= frame(p));
    } else {
        lemma_frames_push(rs.drop_first(), p);
        assert(rs.push(p).drop_first() =~= rs.drop_first().push(p));
        assert(frames(rs.push(p)) =~= frames(rs) + frame(p));
    }
}

/// The byte contents of each buffer.
pub open spec fn views(v: Seq<Vec<u8>>) -> Seq<Seq<u8>> {
    v.map_values(|x: Vec<u8>| x@)
}

/// The bytes that store `payload` as one journal record.
pub fn frame_record(payload: &[u8]) -> (r: Vec<u8>)
    ensures
        r@ == frame(payload@),
{
    let mut r = encode_be_u64(payload.len() as u64);
    let mut body = slice_to_vec(payload);
    r.append(&mut body);
    r
}

/// Splits bytes in the journal framing into the payloads of their records,
/// in order; fails with `CorruptedLog` exactly where the framing is broken.
pub fn parse_journal(bytes: &[u8]) -> (r: Result<Vec<Vec<u8>>>)
    ensures
        match r {
            Ok(v) => parse(bytes@) == Some(views(v@)),
            Err(e) => parse(bytes@) is None && e == Error::CorruptedLog,
        },
{
    let mut out: Vec<Vec<u8>> = Vec::new();
    let mut pos: usize = 0;
    let len = bytes.len();
    proof {
        assert(bytes@.subrange(0, len as int) =~= bytes@);
        assert(views(out@) =~= seq![]);
        if let Some(rs) = parse(bytes@) {
            assert(views(out@) + rs =~= rs);
        }
    }
    while pos < len
        invariant
            len == bytes@.len(),
            pos <= len,
            parse(bytes@) == extend_parsed(
                views(out@),
                parse(bytes@.subrange(pos as int, len as int)),
            ),
        decreases len - pos,
    {
        let ghost rem = bytes@.subrange(pos as int, len as int);
        let left = len - pos;
        if left < 8 {
            return Err(Error::CorruptedLog);
        }
        let n = decode_be_u64(&bytes[pos..len]);
        if n > (left - 8) as u64 {
            return Err(Error::CorruptedLog);
        }
        let n = n as usize;
        let payload = slice_to_vec(&bytes[pos + 8..pos + 8 + n]);
        proof {
            let after = bytes@.subrange((pos + 8 + n) as int, len as int);
            assert(rem.subrange(8, 8 + n) =~= payload@);
            assert(rem.subrange(8 + n, rem.len() as int) =~= after);
            assert(parse(rem) == extend_parsed(seq![payload@], parse(after)));
            assert(views(out@.push(payload)) =~= views(out@) + seq![payload@]);
            if let Some(rest) = parse(after) {
                assert(views(out@) + (seq![payload@] + rest) =~= views(out@.push(payload))
                    + rest);
            }
        }
        out.push(payload);
        pos = pos + 8 + n;
    }
    proof {
        assert(bytes@.subrange(pos as int, len as int) =~= Seq::<u8>::empty());
        assert(views(out@) + seq![] =~= views(out@));
    }
    Ok(out)
}

} // verus!
