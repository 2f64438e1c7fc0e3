use vstd::prelude::*;

use crate::cache::{CacheView, MessageBufferCache};
use crate::chunk::{label_error, normalize, without_root, ChunkError, MessageChunk};
use crate::packet::{
    a_record_bytes, packet_wire_len, parses_simply, question_bytes, question_read_at, writes_simply,
    header_bytes, header_of, lemma_header_at, lemma_header_round_trip, DnsPacket, DnsQuestion, DnsRecord, ResultCode,
};
use crate::response::{address_spec, response_address};
use crate::wire::{be16, encode_name_spec, BytePacketBuffer, WireError, BUF_SIZE};
use vstd::utf8::encode_utf8;

verus! {

/// TTL of every answer: short, so that resolvers ask again soon.
pub const ANSWER_TTL: u32 = 255;

/// What absorbing one query did: the message id, whether that message is now
/// complete, and whether it became complete on this query (and so is to be
/// handed off, once).
#[derive(Debug)]
pub struct MessageResult {
    pub id: String,
    pub is_complete: bool,
    pub newly_complete: bool,
}

/// Why a query carried no chunk.
#[derive(Debug, Clone, Copy, PartialEq, Eq)]
pub enum QueryError {
    /// The request held no question.
    NoQuestion,
    /// The question's name is not a chunk.
    Chunk(ChunkError),
    /// The datagram is not a well-formed DNS message.
    Malformed(WireError),
}

/// How absorbing the query name `name` under `domain` takes the cache from
/// `before` to `after` with result `r`: a name that is no chunk leaves the cache
/// as it was and gives its error; a chunk is added, and the result carries its
/// id and whether its message is complete.
pub open spec fn query_absorbed(
    before: CacheView,
    after: CacheView,
    name: Seq<char>,
    domain: Seq<char>,
    r: Result<MessageResult, ChunkError>,
) -> bool {
    match without_root(name, domain) {
        None => r == Err::<MessageResult, ChunkError>(ChunkError::BadDomain) && after == before,
        Some(t) => match label_error(normalize(t)) {
            Some(e) => r == Err::<MessageResult, ChunkError>(e) && after == before,
            None => r is Ok && exists|c: MessageChunk|
                c.wf() && c.source@ == normalize(t) && #[trigger] before.add_spec(c) == after
                    && r.unwrap().is_complete == before.add_result(c) && r.unwrap().id@ == c.id_spec()
                    && r.unwrap().newly_complete == (before.add_result(c) && !before.complete_of(c.id_spec())),
        },
    }
}

/// `query_absorbed` for the result of a query that held a question.
pub open spec fn result_absorbed(
    before: CacheView,
    after: CacheView,
    name: Seq<char>,
    domain: Seq<char>,
    r: Result<MessageResult, QueryError>,
) -> bool {
    match r {
        Ok(m) => query_absorbed(before, after, name, domain, Ok(m)),
        Err(QueryError::Chunk(e)) => query_absorbed(before, after, name, domain, Err(e)),
        Err(_) => false,
    }
}

/// The reply to question `q` (the question echoed and one A answer) fits in a datagram.
pub open spec fn reply_fits(q: DnsQuestion) -> bool {
    &&& encode_name_spec(encode_utf8(q.name@)) is Some
    &&& 12 + question_bytes(q.name@, q.qtype).len() + a_record_bytes(q.name@, seq![0u8, 0u8, 0u8, 0u8], ANSWER_TTL).len()
        <= BUF_SIZE
}

/// The datagram did not parse.
pub open spec fn is_malformed(r: Result<MessageResult, QueryError>) -> bool {
    r matches Err(QueryError::Malformed(_))
}

/// The datagram held no question.
pub open spec fn is_no_question(r: Result<MessageResult, QueryError>) -> bool {
    r matches Err(QueryError::NoQuestion)
}

/// Whether absorbing the query completed its message.
pub open spec fn completed(r: Result<MessageResult, QueryError>) -> bool {
    r is Ok && r.unwrap().is_complete
}

/// Decodes `name` under `domain` and adds the chunk to the cache.
pub fn add_inbound_query(message_buffer_cache: &mut MessageBufferCache, name: &str, domain: &str) -> (r: Result<
    MessageResult,
    ChunkError,
>)
    requires
        old(message_buffer_cache).wf(),
    ensures
        final(message_buffer_cache).wf(),
        query_absorbed(old(message_buffer_cache)@, final(message_buffer_cache)@, name@, domain@, r),
{
    let message_chunk = MessageChunk::from(name, domain)?;
    let id = message_chunk.id();
    let ghost c = message_chunk;
    let was_complete = message_buffer_cache.is_complete_id(&id);
    let is_complete = message_buffer_cache.add(message_chunk);
    assert(old(message_buffer_cache)@.add_spec(c) == message_buffer_cache@);
    Ok(MessageResult { id, is_complete, newly_complete: is_complete && !was_complete })
}

/// Builds the response to `request` and feeds its first question to the cache.
/// The answer's address tells the client whether its message completed, and
/// varies with `time_bytes` so that resolvers do not reuse it.
pub fn respond(
    request: &DnsPacket,
    message_buffer_cache: &mut MessageBufferCache,
    domain: &str,
    time_bytes: &[u8; 8],
) -> (r: (DnsPacket, Result<MessageResult, QueryError>))
    requires
        old(message_buffer_cache).wf(),
    ensures
        final(message_buffer_cache).wf(),
        r.0.header.id == request.header.id,
        r.0.header.response,
        r.0.header.recursion_desired,
        r.0.header.recursion_available,
        !r.0.header.authoritative_answer,
        r.0.header.opcode == 0,
        r.0.authorities@.len() == 0,
        r.0.resources@.len() == 0,
        request.questions@.len() == 0 ==> r.0.header.rescode == ResultCode::FORMERR
            && r.0.questions@.len() == 0 && r.0.answers@.len() == 0
            && r.1 == Err::<MessageResult, QueryError>(QueryError::NoQuestion)
            && final(message_buffer_cache)@ == old(message_buffer_cache)@,
        request.questions@.len() > 0 ==> ({
            let q = request.questions@[0];
            let complete = r.1 is Ok && r.1.unwrap().is_complete;
            &&& r.0.header.rescode == ResultCode::NOERROR
            &&& r.0.questions@.len() == 1
            &&& r.0.questions@[0].name@ == q.name@
            &&& r.0.questions@[0].qtype == q.qtype
            &&& r.0.answers@.len() == 1
            &&& match r.0.answers@[0] {
                DnsRecord::A { domain: d, addr, ttl } => d@ == q.name@ && ttl == ANSWER_TTL
                    && addr@ == address_spec(complete, time_bytes@),
                _ => false,
            }
            &&& result_absorbed(old(message_buffer_cache)@, final(message_buffer_cache)@, q.name@, domain@, r.1)
        }),
{
    let mut packet = DnsPacket::new();
    packet.header.id = request.header.id;
    packet.header.recursion_desired = true;
    packet.header.recursion_available = true;
    packet.header.response = true;
    packet.header.authoritative_answer = false;
    if request.questions.len() == 0 {
        packet.header.rescode = ResultCode::FORMERR;
        return (packet, Err(QueryError::NoQuestion));
    }
    let question = &request.questions[0];
    let result = match add_inbound_query(message_buffer_cache, question.name.as_str(), domain) {
        Ok(m) => Ok(m),
        Err(e) => Err(QueryError::Chunk(e)),
    };
    let complete = match &result {
        Ok(m) => m.is_complete,
        Err(_) => false,
    };
    let addr = response_address(complete, time_bytes);
    packet.header.rescode = ResultCode::NOERROR;
    let name = question.name.clone();
    packet.questions.push(DnsQuestion::new(question.name.clone(), question.qtype));
    packet.answers.push(DnsRecord::A { domain: name, addr, ttl: ANSWER_TTL });
    (packet, result)
}

/// The FORMERR reply to a datagram that does not parse, echoing its id.
pub fn malformed_response(id: u16) -> (r: DnsPacket)
    ensures
        r.header.id == id,
        r.header.response,
        r.header.recursion_desired,
        r.header.recursion_available,
        !r.header.authoritative_answer,
        r.header.opcode == 0,
        r.header.rescode == ResultCode::FORMERR,
        r.questions@.len() == 0,
        r.answers@.len() == 0,
        r.authorities@.len() == 0,
        r.resources@.len() == 0,
{
    let mut packet = DnsPacket::new();
    packet.header.id = id;
    packet.header.recursion_desired = true;
    packet.header.recursion_available = true;
    packet.header.response = true;
    packet.header.authoritative_answer = false;
    packet.header.rescode = ResultCode::FORMERR;
    packet
}

/// Handles one datagram held in `req_buffer`, from its start: parses it,
/// responds, and returns the response's bytes with what happened to the query.
/// A datagram that does not parse gets a FORMERR reply and leaves the cache
/// alone; the call fails only where the reply to its question does not fit.
pub fn handle_packet(
    req_buffer: &mut BytePacketBuffer,
    message_buffer_cache: &mut MessageBufferCache,
    domain: &str,
    time_bytes: &[u8; 8],
) -> (r: Result<(Vec<u8>, Result<MessageResult, QueryError>), WireError>)
    requires
        old(req_buffer).wf(),
        old(req_buffer).pos == 0,
        old(message_buffer_cache).wf(),
    ensures
        final(message_buffer_cache).wf(),
        ({
            let b = old(req_buffer).buf@;
            let before = old(message_buffer_cache)@;
            let after = final(message_buffer_cache)@;
            &&& r is Err ==> exists|q: DnsQuestion| #[trigger] question_read_at(b, 12, q) && !reply_fits(q)
            &&& parses_simply(b, 0) && r is Ok ==> !is_malformed(r.unwrap().1)
            &&& r is Ok ==> ({
                let d = r.unwrap().0@;
                let h = header_of(d, 0);
                let res = r.unwrap().1;
                &&& d.len() >= 12
                &&& h.id == be16(b, 0)
                &&& h.response
                &&& h.recursion_desired
                &&& h.recursion_available
                &&& !h.authoritative_answer
                &&& is_malformed(res) ==> h.rescode == ResultCode::FORMERR && after == before
                    && d == header_bytes(h)
                &&& !is_malformed(res) && header_of(b, 0).questions == 0 ==> h.rescode == ResultCode::FORMERR
                    && after == before && d == header_bytes(h) && is_no_question(res)
                &&& !is_malformed(res) && header_of(b, 0).questions > 0 ==> exists|
                    q: DnsQuestion,
                |
                    #[trigger] question_read_at(b, 12, q) && result_absorbed(before, after, q.name@, domain@, res)
                        && h.rescode == ResultCode::NOERROR && h.questions == 1 && h.answers == 1
                        && h.authoritative_entries == 0 && h.resource_entries == 0 && d == header_bytes(h)
                        + question_bytes(q.name@, q.qtype) + a_record_bytes(
                        q.name@,
                        address_spec(completed(res), time_bytes@),
                        ANSWER_TTL,
                    )
            })
        }),
{
    let ghost b = req_buffer.buf@;
    let ghost before = message_buffer_cache@;
    let ghost mut wq: Option<DnsQuestion> = None;
    let id = (req_buffer.buf[0] as u16) * 256 + req_buffer.buf[1] as u16;
    let (mut packet, result) = match DnsPacket::from_buffer(req_buffer) {
        Ok(request) => {
            proof {
                if request.questions@.len() > 0 {
                    wq = Some(request.questions@[0]);
                }
            }
            respond(&request, message_buffer_cache, domain, time_bytes)
        },
        Err(e) => (malformed_response(id), Err(QueryError::Malformed(e))),
    };
    let ghost pk = packet;
    let mut res_buffer = BytePacketBuffer::new();
    proof {
        if wq is Some {
            let q = wq.unwrap();
            let ab = a_record_bytes(q.name@, address_spec(completed(result), time_bytes@), ANSWER_TTL);
            assert(ab.len() == a_record_bytes(q.name@, seq![0u8, 0u8, 0u8, 0u8], ANSWER_TTL).len());
            if reply_fits(q) {
                assert(writes_simply(pk, 0));
            }
        } else {
            assert(writes_simply(pk, 0));
        }
    }
    let w = packet.write(&mut res_buffer);
    if w.is_err() {
        proof {
            assert(wq is Some);
            assert(question_read_at(b, 12, wq.unwrap()));
        }
        return Err(w.unwrap_err());
    }
    let data = res_buffer.get_data();
    proof {
        let hb = header_bytes(packet.header);
        assert forall|k: int| 0 <= k < 12 implies data@[k] == hb[k] by {
            assert(res_buffer.buf@.subrange(0, 12)[k] == hb[k]);
        }
        lemma_header_round_trip(packet.header);
        lemma_header_at(data@, 0, hb);
        if wq is Some {
            let q = wq.unwrap();
            assert(question_read_at(b, 12, q));
            let qb = question_bytes(q.name@, q.qtype);
            let ab = a_record_bytes(q.name@, address_spec(completed(result), time_bytes@), ANSWER_TTL);
            assert(data@ =~= hb + qb + ab) by {
                assert(pk.questions@[0].name@ == q.name@);
                assert(data@.subrange(0, 12) =~= hb);
                let ql = qb.len() as int;
                let al = ab.len() as int;
                assert(ab.len() == a_record_bytes(q.name@, seq![0u8, 0u8, 0u8, 0u8], ANSWER_TTL).len());
                assert(reply_fits(q));
                assert(writes_simply(pk, 0));
                assert(res_buffer.pos == 12 + ql + al);
                assert(data@.subrange(12, 12 + ql) =~= qb);
                assert(data@.subrange(12 + ql, 12 + ql + al) =~= ab);
            }
        } else {
            assert(data@ =~= hb);
        }
    }
    Ok((data, result))
}

} // verus!
