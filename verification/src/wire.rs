//! Byte framing: the capability request this plugin receives, the requests it
//! sends to the parser capabilities, and the fixed-size records the parser
//! capabilities answer with.
use vstd::prelude::*;


verus! {

/// Error code for a request that is too short for its own length prefix.
pub const MALFORMED_REQUEST: i64 = -1002;

/// Error code for a parser capability that could not be invoked.
pub const PARSER_UNAVAILABLE: i64 = -1003;

/// The `limit` sent with a call-site request.
pub const CALL_SITES_LIMIT: u32 = 16384;

/// The `limit` sent with a retrieval request.
pub const RETRIEVAL_LIMIT: u32 = 8192;

/// Size of one call-site record: a `u32` offset and a 64-byte name field.
pub const CALL_SITE_RECORD: usize = 68;

/// Size of one retrieval record: `u32` offset, `u32` length, a 95-byte label
/// field and a kind byte.
pub const RETRIEVAL_RECORD: usize = 104;

/// The number that four bytes encode in little-endian order (`u32::from_le_bytes`).
pub open spec fn le_u32(b0: u8, b1: u8, b2: u8, b3: u8) -> u32 {
    (b0 as int + 256 * (b1 as int) + 65536 * (b2 as int) + 16777216 * (b3 as int)) as u32
}

/// The little-endian `u32` stored in `data` at `pos`.
pub open spec fn le_u32_at(data: Seq<u8>, pos: int) -> u32 {
    le_u32(data[pos], data[pos + 1], data[pos + 2], data[pos + 3])
}

/// The four little-endian bytes of `x` (`u32::to_le_bytes`).
pub open spec fn le_bytes(x: u32) -> Seq<u8> {
    seq![
        (x % 256) as u8,
        ((x / 256) % 256) as u8,
        ((x / 65536) % 256) as u8,
        ((x / 16777216) % 256) as u8,
    ]
}

/// Reads the little-endian `u32` that starts at `pos`.
pub fn read_u32_le(data: &[u8], pos: usize) -> (v: u32)
    requires
        pos + 4 <= data@.len(),
    ensures
        v == le_u32_at(data@, pos as int),
{
    let b0 = data[pos] as u32;
    let b1 = data[pos + 1] as u32;
    let b2 = data[pos + 2] as u32;
    let b3 = data[pos + 3] as u32;
    b0 + b1 * 256 + b2 * 65536 + b3 * 16777216
}

/// Appends the four little-endian bytes of `x` to `out`.
pub fn push_u32_le(out: &mut Vec<u8>, x: u32)
    ensures
        final(out)@ == old(out)@ + le_bytes(x),
{
    out.push((x % 256) as u8);
    out.push(((x / 256) % 256) as u8);
    out.push(((x / 65536) % 256) as u8);
    out.push(((x / 16777216) % 256) as u8);
    assert(final(out)@ =~= old(out)@ + le_bytes(x));
}

/// Reading back the four bytes that `le_bytes` writes gives the number again.
pub proof fn lemma_le_roundtrip(x: u32)
    ensures
        le_u32(le_bytes(x)[0], le_bytes(x)[1], le_bytes(x)[2], le_bytes(x)[3]) == x,
{
    let b = le_bytes(x);
    assert(b[0] as int == x % 256);
    assert(b[1] as int == (x / 256) % 256);
    assert(b[2] as int == (x / 65536) % 256);
    assert(b[3] as int == (x / 16777216) % 256);
    assert(x % 256 + 256 * ((x / 256) % 256) + 65536 * ((x / 65536) % 256) + 16777216 * ((x
        / 16777216) % 256) == x) by (nonlinear_arith);
}

/// What a capability request asks for.
pub enum CapabilityRequest<'a> {
    /// Nothing to analyse: the request or its source is empty.
    Empty,
    /// The request is shorter than its length prefix says.
    Malformed,
    /// The source text to analyse.
    Source(&'a [u8]),
}

/// The meaning of a capability request, as plain values.
pub enum RequestMeaning {
    Empty,
    Malformed,
    Source(Seq<u8>),
}

/// A request is a little-endian `u32` length `n`, then `n` bytes of source, then
/// anything. An empty request, or one whose source is empty, asks for nothing;
/// one shorter than 4 bytes, or than `4 + n`, is malformed.
pub open spec fn request_meaning(req: Seq<u8>) -> RequestMeaning {
    if req.len() == 0 {
        RequestMeaning::Empty
    } else if req.len() < 4 {
        RequestMeaning::Malformed
    } else {
        let n = le_u32_at(req, 0) as int;
        if req.len() < 4 + n {
            RequestMeaning::Malformed
        } else if n == 0 {
            RequestMeaning::Empty
        } else {
            RequestMeaning::Source(req.subrange(4, 4 + n))
        }
    }
}

/// The meaning of a [`CapabilityRequest`].
pub open spec fn capability_request_view(r: CapabilityRequest) -> RequestMeaning {
    match r {
        CapabilityRequest::Empty => RequestMeaning::Empty,
        CapabilityRequest::Malformed => RequestMeaning::Malformed,
        CapabilityRequest::Source(s) => RequestMeaning::Source(s@),
    }
}

/// Splits a capability request into the source it carries.
pub fn decode_capability_request(request: &[u8]) -> (r: CapabilityRequest<'_>)
    ensures
        capability_request_view(r) == request_meaning(request@),
{
    if request.len() == 0 {
        return CapabilityRequest::Empty;
    }
    if request.len() < 4 {
        return CapabilityRequest::Malformed;
    }
    let n = read_u32_le(request, 0) as usize;
    if request.len() - 4 < n {
        return CapabilityRequest::Malformed;
    }
    if n == 0 {
        return CapabilityRequest::Empty;
    }
    CapabilityRequest::Source(&request[4..4 + n])
}

/// The bytes of a parser request: the source length as a little-endian `u32`
/// (truncated to 32 bits), the source, and the limit as a little-endian `u32`.
pub open spec fn parser_request_bytes(src: Seq<u8>, limit: u32) -> Seq<u8> {
    le_bytes(src.len() as u32) + src + le_bytes(limit)
}

/// Builds a parser request for `src` with the given `limit`.
pub fn parser_request(src: &[u8], limit: u32) -> (r: Vec<u8>)
    ensures
        r@ == parser_request_bytes(src@, limit),
{
    let mut r: Vec<u8> = Vec::new();
    push_u32_le(&mut r, src.len() as u32);
    let mut i: usize = 0;
    while i < src.len()
        invariant
            i <= src@.len(),
            r@ == le_bytes(src@.len() as u32) + src@.take(i as int),
        decreases src@.len() - i,
    {
        r.push(src[i]);
        i = i + 1;
        assert(r@ =~= le_bytes(src@.len() as u32) + src@.take(i as int));
    }
    assert(src@.take(src@.len() as int) =~= src@);
    push_u32_le(&mut r, limit);
    r
}

/// The request sent to the call-site capability.
pub fn call_sites_request(src: &[u8]) -> (r: Vec<u8>)
    ensures
        r@ == parser_request_bytes(src@, CALL_SITES_LIMIT),
{
    parser_request(src, CALL_SITES_LIMIT)
}

/// The request sent to the retrieval capability.
pub fn retrieval_request(src: &[u8]) -> (r: Vec<u8>)
    ensures
        r@ == parser_request_bytes(src@, RETRIEVAL_LIMIT),
{
    parser_request(src, RETRIEVAL_LIMIT)
}

/// A parser request is itself a well-formed capability request: read back, it
/// carries exactly the source it was built from.
pub proof fn lemma_parser_request_carries_source(src: Seq<u8>, limit: u32)
    requires
        src.len() <= u32::MAX,
    ensures
        src.len() == 0 ==> request_meaning(parser_request_bytes(src, limit))
            == RequestMeaning::Empty,
        src.len() > 0 ==> request_meaning(parser_request_bytes(src, limit))
            == RequestMeaning::Source(src),
{
    let req = parser_request_bytes(src, limit);
    let n = src.len() as u32;
    lemma_le_roundtrip(n);
    assert(req[0] == le_bytes(n)[0]);
    assert(req[1] == le_bytes(n)[1]);
    assert(req[2] == le_bytes(n)[2]);
    assert(req[3] == le_bytes(n)[3]);
    assert(le_u32_at(req, 0) == n);
    assert(req.subrange(4, 4 + src.len() as int) =~= src);
}

/// Framing read back: a length prefix `n` followed by `n` source bytes and then
/// anything at all (nothing included) carries exactly those bytes; fewer than
/// `n` bytes after the prefix is malformed; a zero prefix asks for nothing.
pub proof fn lemma_request_framing(n: u32, body: Seq<u8>)
    ensures
        n > 0 && body.len() >= n ==> request_meaning(le_bytes(n) + body) == RequestMeaning::Source(
            body.take(n as int),
        ),
        body.len() < n ==> request_meaning(le_bytes(n) + body) == RequestMeaning::Malformed,
        n == 0 ==> request_meaning(le_bytes(n) + body) == RequestMeaning::Empty,
{
    let req = le_bytes(n) + body;
    lemma_le_roundtrip(n);
    assert(req[0] == le_bytes(n)[0]);
    assert(req[1] == le_bytes(n)[1]);
    assert(req[2] == le_bytes(n)[2]);
    assert(req[3] == le_bytes(n)[3]);
    assert(le_u32_at(req, 0) == n);
    if body.len() >= n {
        assert(req.subrange(4, 4 + n as int) =~= body.take(n as int));
    }
}

/// Requests shorter than the prefix itself are malformed, and the empty
/// request asks for nothing.
pub proof fn lemma_short_requests(req: Seq<u8>)
    ensures
        req.len() == 0 ==> request_meaning(req) == RequestMeaning::Empty,
        0 < req.len() < 4 ==> request_meaning(req) == RequestMeaning::Malformed,
{
}

/// A source framed with its own length and nothing after it is read back as
/// that source.
pub proof fn lemma_exact_request_carries_source(src: Seq<u8>)
    requires
        0 < src.len() <= u32::MAX,
    ensures
        request_meaning(le_bytes(src.len() as u32) + src) == RequestMeaning::Source(src),
{
    lemma_request_framing(src.len() as u32, src);
    assert(src.take(src.len() as int) =~= src);
}

} // verus!
