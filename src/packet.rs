use vstd::prelude::*;

use crate::wire::{
    ascii_text, be16, be32, lossy_text, encode_name_spec, join_labels, labels_nonempty, lemma_name_round_trip,
    name_end, name_labels, BytePacketBuffer, WireError, BUF_SIZE, MAX_JUMPS,
};
use vstd::utf8::{encode_utf8, is_ascii_chars, is_ascii_chars_encode_utf8};

verus! {

/// Response code of a DNS header.
#[allow(non_camel_case_types)]
#[derive(Debug, Clone, Copy, PartialEq, Eq)]
pub enum ResultCode {
    NOERROR,
    FORMERR,
    SERVFAIL,
    NXDOMAIN,
    NOTIMP,
    REFUSED,
}

/// Code of a response code on the wire.
pub open spec fn rescode_num(r: ResultCode) -> u8 {
    match r {
        ResultCode::NOERROR => 0,
        ResultCode::FORMERR => 1,
        ResultCode::SERVFAIL => 2,
        ResultCode::NXDOMAIN => 3,
        ResultCode::NOTIMP => 4,
        ResultCode::REFUSED => 5,
    }
}

/// Response code of a wire code; codes above 5 read as NOERROR.
pub open spec fn rescode_of(n: u8) -> ResultCode {
    if n == 1 {
        ResultCode::FORMERR
    } else if n == 2 {
        ResultCode::SERVFAIL
    } else if n == 3 {
        ResultCode::NXDOMAIN
    } else if n == 4 {
        ResultCode::NOTIMP
    } else if n == 5 {
        ResultCode::REFUSED
    } else {
        ResultCode::NOERROR
    }
}

impl ResultCode {
    pub fn from_num(num: u8) -> (r: ResultCode)
        ensures
            r == rescode_of(num),
    {
        match num {
            1 => ResultCode::FORMERR,
            2 => ResultCode::SERVFAIL,
            3 => ResultCode::NXDOMAIN,
            4 => ResultCode::NOTIMP,
            5 => ResultCode::REFUSED,
            _ => ResultCode::NOERROR,
        }
    }

    pub fn to_num(&self) -> (r: u8)
        ensures
            r == rescode_num(*self),
    {
        match self {
            ResultCode::NOERROR => 0,
            ResultCode::FORMERR => 1,
            ResultCode::SERVFAIL => 2,
            ResultCode::NXDOMAIN => 3,
            ResultCode::NOTIMP => 4,
            ResultCode::REFUSED => 5,
        }
    }
}

/// The fixed 12-byte header of a DNS message.
#[derive(Debug, Clone, Copy, PartialEq, Eq)]
pub struct DnsHeader {
    pub id: u16,
    pub recursion_desired: bool,
    pub truncated_message: bool,
    pub authoritative_answer: bool,
    pub opcode: u8,
    pub response: bool,
    pub rescode: ResultCode,
    pub checking_disabled: bool,
    pub authed_data: bool,
    pub z: bool,
    pub recursion_available: bool,
    pub questions: u16,
    pub answers: u16,
    pub authoritative_entries: u16,
    pub resource_entries: u16,
}

/// Bit `k` of `x`.
pub open spec fn bit(x: u8, k: nat) -> bool {
    (x as nat / pow2(k)) % 2 == 1
}

pub open spec fn pow2(k: nat) -> nat
    decreases k,
{
    if k == 0 {
        1
    } else {
        2 * pow2((k - 1) as nat)
    }
}

pub open spec fn b2n(b: bool) -> nat {
    if b {
        1
    } else {
        0
    }
}

/// The header that the 12 bytes at `pos` encode.
pub open spec fn header_of(b: Seq<u8>, pos: int) -> DnsHeader {
    let a = b[pos + 2];
    let c = b[pos + 3];
    DnsHeader {
        id: be16(b, pos),
        recursion_desired: bit(a, 0),
        truncated_message: bit(a, 1),
        authoritative_answer: bit(a, 2),
        opcode: ((a as nat / 8) % 16) as u8,
        response: bit(a, 7),
        rescode: rescode_of((c as nat % 16) as u8),
        checking_disabled: bit(c, 4),
        authed_data: bit(c, 5),
        z: bit(c, 6),
        recursion_available: bit(c, 7),
        questions: be16(b, pos + 4),
        answers: be16(b, pos + 6),
        authoritative_entries: be16(b, pos + 8),
        resource_entries: be16(b, pos + 10),
    }
}

/// First flag byte of header `h`.
pub open spec fn flags_hi(h: DnsHeader) -> nat {
    b2n(h.recursion_desired) + 2 * b2n(h.truncated_message) + 4 * b2n(h.authoritative_answer) + 8 * (
    h.opcode as nat % 16) + 128 * b2n(h.response)
}

/// Second flag byte of header `h`.
pub open spec fn flags_lo(h: DnsHeader) -> nat {
    rescode_num(h.rescode) as nat + 16 * b2n(h.checking_disabled) + 32 * b2n(h.authed_data) + 64 * b2n(
    h.z) + 128 * b2n(h.recursion_available)
}

/// The 12 bytes that encode header `h`.
pub open spec fn header_bytes(h: DnsHeader) -> Seq<u8> {
    seq![
        (h.id / 256) as u8,
        (h.id % 256) as u8,
        flags_hi(h) as u8,
        flags_lo(h) as u8,
        (h.questions / 256) as u8,
        (h.questions % 256) as u8,
        (h.answers / 256) as u8,
        (h.answers % 256) as u8,
        (h.authoritative_entries / 256) as u8,
        (h.authoritative_entries % 256) as u8,
        (h.resource_entries / 256) as u8,
        (h.resource_entries % 256) as u8,
    ]
}

impl DnsHeader {
    /// A zeroed header.
    pub fn new() -> (r: DnsHeader)
        ensures
            r == header_of(Seq::new(12, |i: int| 0u8), 0),
    {
        let r = DnsHeader {
            id: 0,
            recursion_desired: false,
            truncated_message: false,
            authoritative_answer: false,
            opcode: 0,
            response: false,
            rescode: ResultCode::NOERROR,
            checking_disabled: false,
            authed_data: false,
            z: false,
            recursion_available: false,
            questions: 0,
            answers: 0,
            authoritative_entries: 0,
            resource_entries: 0,
        };
        proof {
            reveal_with_fuel(pow2, 8);
        }
        r
    }

    /// Reads a header at the cursor and advances past it.
    pub fn read(buffer: &mut BytePacketBuffer) -> (r: Result<DnsHeader, WireError>)
        requires
            old(buffer).wf(),
        ensures
            final(buffer).wf(),
            final(buffer).buf@ == old(buffer).buf@,
            match r {
                Ok(h) => old(buffer).pos + 12 <= BUF_SIZE && h == header_of(old(buffer).buf@, old(buffer).pos as int)
                    && final(buffer).pos == old(buffer).pos + 12,
                Err(e) => old(buffer).pos + 12 > BUF_SIZE && e == WireError::EndOfBuffer,
            },
    {
        if buffer.pos > BUF_SIZE - 12 {
            return Err(WireError::EndOfBuffer);
        }
        let p = buffer.pos;
        let id = buffer.read_u16()?;
        let a = buffer.read()?;
        let c = buffer.read()?;
        let questions = buffer.read_u16()?;
        let answers = buffer.read_u16()?;
        let authoritative_entries = buffer.read_u16()?;
        let resource_entries = buffer.read_u16()?;
        let h = DnsHeader {
            id,
            recursion_desired: a % 2 == 1,
            truncated_message: (a / 2) % 2 == 1,
            authoritative_answer: (a / 4) % 2 == 1,
            opcode: (a / 8) % 16,
            response: (a / 128) % 2 == 1,
            rescode: ResultCode::from_num(c % 16),
            checking_disabled: (c / 16) % 2 == 1,
            authed_data: (c / 32) % 2 == 1,
            z: (c / 64) % 2 == 1,
            recursion_available: (c / 128) % 2 == 1,
            questions,
            answers,
            authoritative_entries,
            resource_entries,
        };
        proof {
            lemma_pow2_values();
            assert(h == header_of(old(buffer).buf@, p as int));
        }
        Ok(h)
    }

    fn flags_hi(&self) -> (r: u8)
        ensures
            r as nat == flags_hi(*self),
    {
        let rd: u8 = if self.recursion_desired { 1 } else { 0 };
        let tc: u8 = if self.truncated_message { 2 } else { 0 };
        let aa: u8 = if self.authoritative_answer { 4 } else { 0 };
        let qr: u8 = if self.response { 128 } else { 0 };
        rd + tc + aa + 8 * (self.opcode % 16) + qr
    }

    fn flags_lo(&self) -> (r: u8)
        ensures
            r as nat == flags_lo(*self),
    {
        let cd: u8 = if self.checking_disabled { 16 } else { 0 };
        let ad: u8 = if self.authed_data { 32 } else { 0 };
        let z: u8 = if self.z { 64 } else { 0 };
        let ra: u8 = if self.recursion_available { 128 } else { 0 };
        self.rescode.to_num() + cd + ad + z + ra
    }

    /// Writes this header at the cursor and advances past it.
    pub fn write(&self, buffer: &mut BytePacketBuffer) -> (r: Result<(), WireError>)
        requires
            old(buffer).wf(),
        ensures
            final(buffer).wf(),
            r is Ok <==> old(buffer).pos + 12 <= BUF_SIZE,
            r is Ok ==> final(buffer).pos == old(buffer).pos + 12
                && final(buffer).buf@ == old(buffer).buf@.take(old(buffer).pos as int) + header_bytes(*self)
                    + old(buffer).buf@.skip(old(buffer).pos + 12),
            r is Err ==> *final(buffer) == *old(buffer),
    {
        let a = self.flags_hi();
        let c = self.flags_lo();
        let bytes: [u8; 12] = [
            (self.id / 256) as u8,
            (self.id % 256) as u8,
            a,
            c,
            (self.questions / 256) as u8,
            (self.questions % 256) as u8,
            (self.answers / 256) as u8,
            (self.answers % 256) as u8,
            (self.authoritative_entries / 256) as u8,
            (self.authoritative_entries % 256) as u8,
            (self.resource_entries / 256) as u8,
            (self.resource_entries % 256) as u8,
        ];
        assert(bytes@ =~= header_bytes(*self));
        buffer.write_bytes(&bytes)
    }
}

proof fn lemma_pow2_values()
    ensures
        pow2(0) == 1,
        pow2(1) == 2,
        pow2(2) == 4,
        pow2(4) == 16,
        pow2(5) == 32,
        pow2(6) == 64,
        pow2(7) == 128,
{
    reveal_with_fuel(pow2, 8);
}

/// Reading back the bytes of a header gives the header, when its opcode fits in four bits.
#[verifier::spinoff_prover]
#[verifier::rlimit(60)]
pub proof fn lemma_header_round_trip(h: DnsHeader)
    requires
        h.opcode < 16,
    ensures
        header_of(header_bytes(h), 0) == h,
{
    reveal_with_fuel(pow2, 8);
    let r = b2n(h.recursion_desired);
    let t = b2n(h.truncated_message);
    let u = b2n(h.authoritative_answer);
    let o = h.opcode as nat;
    let q = b2n(h.response);
    let a = flags_hi(h);
    assert(a % 2 == r && (a / 2) % 2 == t && (a / 4) % 2 == u && (a / 8) % 16 == o && (a / 128) % 2 == q
        && a < 256) by (nonlinear_arith)
        requires
            r <= 1,
            t <= 1,
            u <= 1,
            o < 16,
            q <= 1,
            a == r + 2 * t + 4 * u + 8 * o + 128 * q,
    ;
    let n = rescode_num(h.rescode) as nat;
    let cd = b2n(h.checking_disabled);
    let ad = b2n(h.authed_data);
    let z = b2n(h.z);
    let ra = b2n(h.recursion_available);
    let c = flags_lo(h);
    assert(c % 16 == n && (c / 16) % 2 == cd && (c / 32) % 2 == ad && (c / 64) % 2 == z && (c / 128) % 2
        == ra && c < 256) by (nonlinear_arith)
        requires
            n < 6,
            cd <= 1,
            ad <= 1,
            z <= 1,
            ra <= 1,
            c == n + 16 * cd + 32 * ad + 64 * z + 128 * ra,
    ;
    lemma_pow2_values();
    let hb = header_of(header_bytes(h), 0);
    assert(header_bytes(h)[2] == a as u8);
    assert(header_bytes(h)[3] == c as u8);
    assert(hb.recursion_desired == h.recursion_desired);
    assert(hb.truncated_message == h.truncated_message);
    assert(hb.authoritative_answer == h.authoritative_answer);
    assert(hb.opcode == h.opcode);
    assert(hb.response == h.response);
    assert(hb.checking_disabled == h.checking_disabled);
    assert(hb.authed_data == h.authed_data);
    assert(hb.z == h.z);
    assert(hb.recursion_available == h.recursion_available);
    assert(hb.rescode == h.rescode);
    assert(hb.id == h.id);
    assert(hb.questions == h.questions);
    assert(hb.answers == h.answers);
    assert(hb.authoritative_entries == h.authoritative_entries);
    assert(hb.resource_entries == h.resource_entries);
}

/// Query type of a question; only A is used by this server.
#[allow(non_camel_case_types)]
#[derive(Debug, Clone, Copy, PartialEq, Eq)]
pub enum QueryType {
    UNKNOWN(u16),
    A,
}

pub open spec fn qtype_of(n: u16) -> QueryType {
    if n == 1 {
        QueryType::A
    } else {
        QueryType::UNKNOWN(n)
    }
}

pub open spec fn qtype_num(t: QueryType) -> u16 {
    match t {
        QueryType::A => 1,
        QueryType::UNKNOWN(n) => n,
    }
}

impl QueryType {
    pub fn from_num(num: u16) -> (r: QueryType)
        ensures
            r == qtype_of(num),
    {
        if num == 1 {
            QueryType::A
        } else {
            QueryType::UNKNOWN(num)
        }
    }

    pub fn to_num(&self) -> (r: u16)
        ensures
            r == qtype_num(*self),
    {
        match self {
            QueryType::A => 1,
            QueryType::UNKNOWN(n) => *n,
        }
    }
}

/// Every byte is ASCII.
pub open spec fn all_ascii(b: Seq<u8>) -> bool {
    forall|i: int| 0 <= i < b.len() ==> b[i] < 128
}

/// The name read at `pos` matches `name`: where the name's bytes are ASCII, character for character.
pub open spec fn name_read_as(b: Seq<u8>, pos: int, name: Seq<char>) -> bool {
    match name_labels(b, pos, MAX_JUMPS as nat) {
        Some(ls) => name == lossy_text(join_labels(ls)) && (all_ascii(join_labels(ls)) ==> name == ascii_text(
            join_labels(ls),
        )),
        None => false,
    }
}

/// A question: a name and a query type, of class IN.
#[derive(Debug)]
pub struct DnsQuestion {
    pub name: String,
    pub qtype: QueryType,
}

impl DnsQuestion {
    pub fn new(name: String, qtype: QueryType) -> (r: DnsQuestion)
        ensures
            r.name == name,
            r.qtype == qtype,
    {
        DnsQuestion { name, qtype }
    }

    /// Reads a question at the cursor: name, type and class.
    pub fn read(buffer: &mut BytePacketBuffer) -> (r: Result<DnsQuestion, WireError>)
        requires
            old(buffer).wf(),
        ensures
            final(buffer).wf(),
            final(buffer).buf@ == old(buffer).buf@,
            ({
                let b = old(buffer).buf@;
                let p = old(buffer).pos as int;
                let e = name_end(b, p);
                match r {
                    Ok(q) => name_labels(b, p, MAX_JUMPS as nat) is Some && e + 4 <= BUF_SIZE
                        && name_read_as(b, p, q.name@) && q.qtype == qtype_of(be16(b, e))
                        && final(buffer).pos == e + 4,
                    Err(_) => name_labels(b, p, MAX_JUMPS as nat) is None || e + 4 > BUF_SIZE,
                }
            }),
            r is Ok ==> question_read_at(old(buffer).buf@, old(buffer).pos as int, r.unwrap()),
            question_fits(old(buffer).buf@, old(buffer).pos as int) ==> r is Ok,
    {
        let name = buffer.read_qname()?;
        let qtype = buffer.read_u16()?;
        let _class = buffer.read_u16()?;
        Ok(DnsQuestion { name, qtype: QueryType::from_num(qtype) })
    }

    /// Writes this question at the cursor: name, type and class IN.
    pub fn write(&self, buffer: &mut BytePacketBuffer) -> (r: Result<(), WireError>)
        requires
            old(buffer).wf(),
        ensures
            final(buffer).wf(),
            final(buffer).pos >= old(buffer).pos,
            final(buffer).buf@.take(old(buffer).pos as int) == old(buffer).buf@.take(old(buffer).pos as int),
            match encode_name_spec(encode_utf8(self.name@)) {
                None => r is Err,
                Some(e) => {
                    let bytes = e + seq![(qtype_num(self.qtype) / 256) as u8, (qtype_num(self.qtype) % 256) as u8, 0u8, 1u8];
                    let p = old(buffer).pos as int;
                    (r is Ok <==> p + bytes.len() <= BUF_SIZE)
                    && (r is Ok ==> final(buffer).pos == p + bytes.len()
                        && final(buffer).buf@ == old(buffer).buf@.take(p) + bytes + old(buffer).buf@.skip(p + bytes.len()))
                },
            },
    {
        let ghost b0 = buffer.buf@;
        let ghost p = buffer.pos as int;
        buffer.write_qname(self.name.as_str())?;
        let ghost e = encode_name_spec(encode_utf8(self.name@)).unwrap();
        let ghost b1 = buffer.buf@;
        let t = self.qtype.to_num();
        let tail: [u8; 4] = [(t / 256) as u8, (t % 256) as u8, 0, 1];
        let r = buffer.write_bytes(&tail);
        proof {
            let bytes = e + tail@;
            if r is Ok {
                assert(buffer.buf@ =~= b0.take(p) + bytes + b0.skip(p + bytes.len()));
            }
            assert(buffer.buf@.take(p) =~= b0.take(p));
        }
        r
    }
}

/// The bytes that `DnsQuestion::write` puts down for a question.
pub open spec fn question_bytes(name: Seq<char>, t: QueryType) -> Seq<u8> {
    encode_name_spec(encode_utf8(name)).unwrap() + seq![
        (qtype_num(t) / 256) as u8,
        (qtype_num(t) % 256) as u8,
        0u8,
        1u8,
    ]
}

/// Reading back the bytes written for a question gives its name and query
/// type, for an ASCII name whose labels are non-empty and at most 63 bytes.
pub proof fn lemma_question_round_trip(name: Seq<char>, t: QueryType, b: Seq<u8>, p: int)
    requires
        is_ascii_chars(name),
        labels_nonempty(encode_utf8(name)),
        encode_name_spec(encode_utf8(name)) is Some,
        t != QueryType::UNKNOWN(1),
        b.len() == BUF_SIZE,
        0 <= p,
        p + question_bytes(name, t).len() <= BUF_SIZE,
        b.subrange(p, p + question_bytes(name, t).len()) == question_bytes(name, t),
    ensures
        name_labels(b, p, MAX_JUMPS as nat) is Some,
        join_labels(name_labels(b, p, MAX_JUMPS as nat).unwrap()) == encode_utf8(name),
        forall|n2: Seq<char>| #[trigger] name_read_as(b, p, n2) ==> n2 == name,
        name_end(b, p) + 4 == p + question_bytes(name, t).len(),
        name_end(b, p) + 4 <= BUF_SIZE,
        qtype_of(be16(b, name_end(b, p))) == t,
{
    let n = encode_utf8(name);
    let e = encode_name_spec(n).unwrap();
    let qb = question_bytes(name, t);
    assert(b.subrange(p, p + e.len()) =~= e) by {
        assert forall|k: int| 0 <= k < e.len() implies b[p + k] == e[k] by {
            assert(b.subrange(p, p + qb.len())[k] == qb[k]);
        }
    }
    lemma_name_round_trip(n, b, p);
    is_ascii_chars_encode_utf8(name);
    let j = join_labels(name_labels(b, p, MAX_JUMPS as nat).unwrap());
    assert(j == n);
    assert(ascii_text(j) =~= name);
    let q = p + e.len();
    assert(b[q] == qb[e.len() as int]);
    assert(b[q + 1] == qb[e.len() as int + 1]);
}

/// `q` is what `DnsQuestion::read` gives at `p`.
pub open spec fn question_read_at(b: Seq<u8>, p: int, q: DnsQuestion) -> bool {
    let e = name_end(b, p);
    name_labels(b, p, MAX_JUMPS as nat) is Some && name_read_as(b, p, q.name@) && e + 4 <= BUF_SIZE
        && q.qtype == qtype_of(be16(b, e))
}

/// A question at `p` lies within the buffer: its name reads and its type and class fit.
pub open spec fn question_fits(b: Seq<u8>, p: int) -> bool {
    name_labels(b, p, MAX_JUMPS as nat) is Some && name_end(b, p) + 4 <= BUF_SIZE
}

/// A record at `p` lies within the buffer: its name reads, and its fixed fields
/// and data fit.
pub open spec fn record_fits(b: Seq<u8>, p: int) -> bool {
    let e = name_end(b, p);
    &&& name_labels(b, p, MAX_JUMPS as nat) is Some
    &&& e + 10 <= BUF_SIZE
    &&& be16(b, e) == 1 ==> e + 14 <= BUF_SIZE
    &&& be16(b, e) != 1 ==> e + 10 + be16(b, e + 8) <= BUF_SIZE
}

/// Where the record at `p` ends.
pub open spec fn record_end(b: Seq<u8>, p: int) -> int {
    let e = name_end(b, p);
    if be16(b, e) == 1 {
        e + 14
    } else {
        e + 10 + be16(b, e + 8)
    }
}

/// `r` is what `DnsRecord::read` gives at `p`.
pub open spec fn record_read_at(b: Seq<u8>, p: int, r: DnsRecord) -> bool {
    let e = name_end(b, p);
    match r {
        DnsRecord::A { domain, addr, ttl } => name_labels(b, p, MAX_JUMPS as nat) is Some && name_read_as(
            b,
            p,
            domain@,
        ) && e + 14 <= BUF_SIZE && be16(b, e) == 1 && ttl == be32(b, e + 4) && addr@ == b.subrange(
            e + 10,
            e + 14,
        ),
        DnsRecord::UNKNOWN { domain, qtype, data_len, ttl } => name_labels(b, p, MAX_JUMPS as nat) is Some
            && name_read_as(b, p, domain@) && e + 10 <= BUF_SIZE && qtype == be16(b, e) && qtype != 1 && ttl
            == be32(b, e + 4) && data_len == be16(b, e + 8),
    }
}

/// The bytes that `DnsRecord::write` puts down for an A record.
pub open spec fn a_record_bytes(domain: Seq<char>, addr: Seq<u8>, ttl: u32) -> Seq<u8> {
    encode_name_spec(encode_utf8(domain)).unwrap() + a_record_tail(addr, ttl)
}

/// Bytes below `p` that a later write leaves alone keep every range within them.
proof fn lemma_prefix_keeps(b1: Seq<u8>, b2: Seq<u8>, p: int, lo: int, hi: int)
    requires
        0 <= lo <= hi <= p <= b1.len(),
        b1.len() == b2.len(),
        b2.take(p) == b1.take(p),
    ensures
        b2.subrange(lo, hi) == b1.subrange(lo, hi),
{
    assert forall|k: int| lo <= k < hi implies b2[k] == b1[k] by {
        assert(b2.take(p)[k] == b2[k]);
        assert(b1.take(p)[k] == b1[k]);
    }
    assert(b2.subrange(lo, hi) =~= b1.subrange(lo, hi));
}

/// A resource record. Only A records are built by this server; any other type
/// is kept as its type, length and TTL, its data skipped.
#[allow(non_camel_case_types)]
#[derive(Debug)]
pub enum DnsRecord {
    UNKNOWN { domain: String, qtype: u16, data_len: u16, ttl: u32 },
    A { domain: String, addr: [u8; 4], ttl: u32 },
}

/// The wire bytes of an A record after its name.
pub open spec fn a_record_tail(addr: Seq<u8>, ttl: u32) -> Seq<u8> {
    seq![
        0u8,
        1u8,
        0u8,
        1u8,
        (ttl / 16777216) as u8,
        ((ttl / 65536) % 256) as u8,
        ((ttl / 256) % 256) as u8,
        (ttl % 256) as u8,
        0u8,
        4u8,
    ] + addr
}

impl DnsRecord {
    /// Reads a record at the cursor.
    pub fn read(buffer: &mut BytePacketBuffer) -> (r: Result<DnsRecord, WireError>)
        requires
            old(buffer).wf(),
        ensures
            final(buffer).wf(),
            final(buffer).buf@ == old(buffer).buf@,
            ({
                let b = old(buffer).buf@;
                let p = old(buffer).pos as int;
                let e = name_end(b, p);
                match r {
                    Ok(DnsRecord::A { domain, addr, ttl }) => name_labels(b, p, MAX_JUMPS as nat) is Some
                        && name_read_as(b, p, domain@) && e + 14 <= BUF_SIZE && be16(b, e) == 1
                        && ttl == be32(b, e + 4) && addr@ == b.subrange(e + 10, e + 14)
                        && final(buffer).pos == e + 14,
                    Ok(DnsRecord::UNKNOWN { domain, qtype, data_len, ttl }) => name_labels(b, p, MAX_JUMPS as nat) is Some
                        && name_read_as(b, p, domain@) && e + 10 <= BUF_SIZE && qtype == be16(b, e) && qtype != 1
                        && ttl == be32(b, e + 4) && data_len == be16(b, e + 8)
                        && final(buffer).pos == e + 10 + data_len,
                    Err(_) => name_labels(b, p, MAX_JUMPS as nat) is None || e + 10 > BUF_SIZE
                        || (be16(b, e) == 1 && e + 14 > BUF_SIZE)
                        || (be16(b, e) != 1 && e + 10 + be16(b, e + 8) > BUF_SIZE),
                }
            }),
            r is Ok ==> record_read_at(old(buffer).buf@, old(buffer).pos as int, r.unwrap())
                && final(buffer).pos == record_end(old(buffer).buf@, old(buffer).pos as int),
            record_fits(old(buffer).buf@, old(buffer).pos as int) ==> r is Ok,
    {
        let domain = buffer.read_qname()?;
        let qtype = buffer.read_u16()?;
        let _class = buffer.read_u16()?;
        let ttl = buffer.read_u32()?;
        let data_len = buffer.read_u16()?;
        if qtype == 1 {
            let a = buffer.read()?;
            let b = buffer.read()?;
            let c = buffer.read()?;
            let d = buffer.read()?;
            let addr = [a, b, c, d];
            assert(addr@ =~= old(buffer).buf@.subrange(buffer.pos - 4, buffer.pos as int));
            Ok(DnsRecord::A { domain, addr, ttl })
        } else {
            buffer.step(data_len as usize)?;
            Ok(DnsRecord::UNKNOWN { domain, qtype, data_len, ttl })
        }
    }

    /// Writes an A record at the cursor; a record of another type is refused.
    pub fn write(&self, buffer: &mut BytePacketBuffer) -> (r: Result<(), WireError>)
        requires
            old(buffer).wf(),
        ensures
            final(buffer).wf(),
            final(buffer).pos >= old(buffer).pos,
            final(buffer).buf@.take(old(buffer).pos as int) == old(buffer).buf@.take(old(buffer).pos as int),
            match self {
                DnsRecord::UNKNOWN { .. } => r == Err::<(), WireError>(WireError::UnsupportedRecord) && *final(buffer) == *old(buffer),
                DnsRecord::A { domain, addr, ttl } => match encode_name_spec(encode_utf8(domain@)) {
                    None => r is Err,
                    Some(e) => {
                        let bytes = e + a_record_tail(addr@, *ttl);
                        let p = old(buffer).pos as int;
                        (r is Ok <==> p + bytes.len() <= BUF_SIZE) && (r is Ok ==> final(buffer).pos == p
                            + bytes.len() && final(buffer).buf@ == old(buffer).buf@.take(p) + bytes
                            + old(buffer).buf@.skip(p + bytes.len()))
                    },
                },
            },
    {
        match self {
            DnsRecord::UNKNOWN { .. } => Err(WireError::UnsupportedRecord),
            DnsRecord::A { domain, addr, ttl } => {
                let ghost b0 = buffer.buf@;
                let ghost p = buffer.pos as int;
                let r = buffer.write_qname(domain.as_str());
                if r.is_err() {
                    return r;
                }
                let ghost e = encode_name_spec(encode_utf8(domain@)).unwrap();
                let t = *ttl;
                let tail: [u8; 14] = [
                    0,
                    1,
                    0,
                    1,
                    (t / 16777216) as u8,
                    ((t / 65536) % 256) as u8,
                    ((t / 256) % 256) as u8,
                    (t % 256) as u8,
                    0,
                    4,
                    addr[0],
                    addr[1],
                    addr[2],
                    addr[3],
                ];
                assert(tail@ =~= a_record_tail(addr@, t));
                let r2 = buffer.write_bytes(&tail);
                proof {
                    let bytes = e + tail@;
                    if r2 is Ok {
                        assert(buffer.buf@ =~= b0.take(p) + bytes + b0.skip(p + bytes.len()));
                    }
                    assert(buffer.buf@.take(p) =~= b0.take(p));
                }
                r2
            },
        }
    }
}

/// Where the records of the message at `s` start, when it holds at most one question.
pub open spec fn records_start(b: Seq<u8>, s: int) -> int {
    if header_of(b, s).questions == 0 {
        s + 12
    } else {
        name_end(b, s + 12) + 4
    }
}

/// The message at `s` has a header, at most one question and at most one
/// record (of any section, of any type), all within the buffer.
pub open spec fn parses_simply(b: Seq<u8>, s: int) -> bool {
    let h = header_of(b, s);
    let n = h.answers + h.authoritative_entries + h.resource_entries;
    &&& 0 <= s
    &&& s + 12 <= BUF_SIZE
    &&& h.questions <= 1
    &&& h.questions == 1 ==> question_fits(b, s + 12)
    &&& n <= 1
    &&& n == 1 ==> record_fits(b, records_start(b, s))
}

/// A DNS message: header, questions, and answer, authority and additional records.
#[derive(Debug)]
pub struct DnsPacket {
    pub header: DnsHeader,
    pub questions: Vec<DnsQuestion>,
    pub answers: Vec<DnsRecord>,
    pub authorities: Vec<DnsRecord>,
    pub resources: Vec<DnsRecord>,
}

/// `DnsRecord::write` writes `r`: an A record whose domain encodes.
pub open spec fn record_writable(r: DnsRecord) -> bool {
    match r {
        DnsRecord::A { domain, .. } => encode_name_spec(encode_utf8(domain@)) is Some,
        DnsRecord::UNKNOWN { .. } => false,
    }
}

/// Number of bytes that `DnsRecord::write` puts down for `r`.
pub open spec fn record_wire_len(r: DnsRecord) -> int {
    match r {
        DnsRecord::A { domain, addr, ttl } => a_record_bytes(domain@, addr@, ttl).len() as int,
        DnsRecord::UNKNOWN { .. } => 0,
    }
}

/// Number of bytes that `DnsPacket::write` puts down for a packet of at most one
/// question and at most one answer.
pub open spec fn packet_wire_len(pk: DnsPacket) -> int {
    12 + (if pk.questions@.len() == 1 {
        question_bytes(pk.questions@[0].name@, pk.questions@[0].qtype).len() as int
    } else {
        0
    }) + (if pk.answers@.len() == 1 {
        record_wire_len(pk.answers@[0])
    } else {
        0
    })
}

/// A packet of at most one question and at most one A answer, whose names
/// encode, and which fits in the buffer from `pos`.
pub open spec fn writes_simply(pk: DnsPacket, pos: int) -> bool {
    &&& pk.questions@.len() <= 1
    &&& pk.questions@.len() == 1 ==> encode_name_spec(encode_utf8(pk.questions@[0].name@)) is Some
    &&& pk.answers@.len() <= 1
    &&& pk.answers@.len() == 1 ==> record_writable(pk.answers@[0])
    &&& pk.authorities@.len() == 0
    &&& pk.resources@.len() == 0
    &&& pos + packet_wire_len(pk) <= BUF_SIZE
}

/// Reads `count` records into `out`.
fn read_records(buffer: &mut BytePacketBuffer, count: u16, out: &mut Vec<DnsRecord>) -> (r: Result<(), WireError>)
    requires
        old(buffer).wf(),
    ensures
        final(buffer).wf(),
        final(buffer).buf@ == old(buffer).buf@,
        r is Ok ==> final(out)@.len() == old(out)@.len() + count,
        r is Ok && count >= 1 ==> record_read_at(old(buffer).buf@, old(buffer).pos as int, final(out)@[old(out)@.len() as int]),
        count == 0 ==> r is Ok && final(buffer).pos == old(buffer).pos,
        count == 1 && record_fits(old(buffer).buf@, old(buffer).pos as int) ==> r is Ok && final(buffer).pos
            == record_end(old(buffer).buf@, old(buffer).pos as int),
{
    let mut i: u16 = 0;
    while i < count
        invariant
            buffer.wf(),
            buffer.buf@ == old(buffer).buf@,
            i <= count,
            out@.len() == old(out)@.len() + i,
            i == 0 ==> buffer.pos == old(buffer).pos,
            i == 1 ==> buffer.pos == record_end(old(buffer).buf@, old(buffer).pos as int),
            i >= 1 ==> record_read_at(old(buffer).buf@, old(buffer).pos as int, out@[old(out)@.len() as int]),
        decreases count - i,
    {
        let rec = DnsRecord::read(buffer)?;
        out.push(rec);
        i = i + 1;
    }
    Ok(())
}

/// Writes `records` in order.
fn write_records(buffer: &mut BytePacketBuffer, records: &Vec<DnsRecord>) -> (r: Result<(), WireError>)
    requires
        old(buffer).wf(),
    ensures
        final(buffer).wf(),
        final(buffer).pos >= old(buffer).pos,
        final(buffer).buf@.take(old(buffer).pos as int) == old(buffer).buf@.take(old(buffer).pos as int),
        r is Ok && records@.len() >= 1 ==> match records@[0] {
            DnsRecord::A { domain, addr, ttl } => encode_name_spec(encode_utf8(domain@)) is Some && final(buffer).pos
                >= old(buffer).pos + a_record_bytes(domain@, addr@, ttl).len() && final(buffer).buf@.subrange(
                old(buffer).pos as int,
                old(buffer).pos + a_record_bytes(domain@, addr@, ttl).len(),
            ) == a_record_bytes(domain@, addr@, ttl),
            DnsRecord::UNKNOWN { .. } => true,
        },
        records@.len() == 0 ==> r is Ok && final(buffer).pos == old(buffer).pos,
        records@.len() == 1 && record_writable(records@[0]) && old(buffer).pos + record_wire_len(records@[0])
            <= BUF_SIZE ==> r is Ok && final(buffer).pos == old(buffer).pos + record_wire_len(records@[0]),
{
    let mut i: usize = 0;
    while i < records.len()
        invariant
            buffer.wf(),
            old(buffer).wf(),
            i >= 1 ==> match records@[0] {
                DnsRecord::A { domain, addr, ttl } => encode_name_spec(encode_utf8(domain@)) is Some && buffer.pos
                    >= old(buffer).pos + a_record_bytes(domain@, addr@, ttl).len() && buffer.buf@.subrange(
                    old(buffer).pos as int,
                    old(buffer).pos + a_record_bytes(domain@, addr@, ttl).len(),
                ) == a_record_bytes(domain@, addr@, ttl),
                DnsRecord::UNKNOWN { .. } => true,
            },
            i == 0 ==> buffer.pos == old(buffer).pos,
            i == 1 && records@.len() == 1 ==> buffer.pos == old(buffer).pos + record_wire_len(records@[0]),
            buffer.pos >= old(buffer).pos,
            buffer.buf@.take(old(buffer).pos as int) == old(buffer).buf@.take(old(buffer).pos as int),
            i <= records@.len(),
        decreases records@.len() - i,
    {
        let ghost b = buffer.buf@;
        let ghost p = buffer.pos as int;
        let res = records[i].write(buffer);
        proof {
            if i == 0 && records@.len() == 1 && record_writable(records@[0]) && old(buffer).pos + record_wire_len(records@[0]) <= BUF_SIZE {
                match records@[0] {
                    DnsRecord::A { domain, addr, ttl } => {
                        assert(res is Ok);
                        assert(buffer.pos == p + a_record_bytes(domain@, addr@, ttl).len());
                    },
                    DnsRecord::UNKNOWN { .. } => {},
                }
            }
        }
        res?;
        proof {
            if i >= 1 {
                match records@[0] {
                    DnsRecord::A { domain, addr, ttl } => {
                        let rb = a_record_bytes(domain@, addr@, ttl);
                        lemma_prefix_keeps(b, buffer.buf@, p, old(buffer).pos as int, old(buffer).pos + rb.len());
                    },
                    DnsRecord::UNKNOWN { .. } => {},
                }
            } else {
                match records@[0] {
                    DnsRecord::A { domain, addr, ttl } => {
                        let rb = a_record_bytes(domain@, addr@, ttl);
                        assert(buffer.buf@.subrange(p, p + rb.len()) =~= rb);
                    },
                    DnsRecord::UNKNOWN { .. } => {},
                }
            }
        }
        assert(buffer.buf@.take(old(buffer).pos as int) =~= old(buffer).buf@.take(old(buffer).pos as int)) by {
            assert(buffer.buf@.take(p) == b.take(p));
            assert forall|j: int| 0 <= j < old(buffer).pos implies buffer.buf@[j] == b[j] by {
                assert(buffer.buf@.take(p)[j] == b.take(p)[j]);
            }
            assert forall|j: int| 0 <= j < old(buffer).pos implies b[j] == old(buffer).buf@[j] by {
                assert(b.take(old(buffer).pos as int)[j] == old(buffer).buf@.take(old(buffer).pos as int)[j]);
            }
        }
        i = i + 1;
    }
    Ok(())
}

impl DnsPacket {
    /// An empty packet with a zeroed header.
    pub fn new() -> (r: DnsPacket)
        ensures
            r.header == header_of(Seq::new(12, |i: int| 0u8), 0),
            r.questions@.len() == 0,
            r.answers@.len() == 0,
            r.authorities@.len() == 0,
            r.resources@.len() == 0,
    {
        DnsPacket {
            header: DnsHeader::new(),
            questions: Vec::new(),
            answers: Vec::new(),
            authorities: Vec::new(),
            resources: Vec::new(),
        }
    }

    /// Parses a packet from the buffer's cursor: the header, then as many
    /// questions and records as its counts announce.
    pub fn from_buffer(buffer: &mut BytePacketBuffer) -> (r: Result<DnsPacket, WireError>)
        requires
            old(buffer).wf(),
        ensures
            final(buffer).wf(),
            final(buffer).buf@ == old(buffer).buf@,
            old(buffer).pos + 12 > BUF_SIZE ==> r is Err,
            r is Ok ==> ({
                let p = r.unwrap();
                &&& old(buffer).pos + 12 <= BUF_SIZE
                &&& p.header == header_of(old(buffer).buf@, old(buffer).pos as int)
                &&& p.questions@.len() == p.header.questions
                &&& p.answers@.len() == p.header.answers
                &&& p.authorities@.len() == p.header.authoritative_entries
                &&& p.resources@.len() == p.header.resource_entries
            }),
        r is Ok ==> ({
            let p = r.unwrap();
            let b = old(buffer).buf@;
            let s = old(buffer).pos as int;
            &&& p.questions@.len() >= 1 ==> question_read_at(b, s + 12, p.questions@[0])
            &&& p.questions@.len() == 1 && p.answers@.len() >= 1 ==> record_read_at(
                b,
                name_end(b, s + 12) + 4,
                p.answers@[0],
            )
        }),
        parses_simply(old(buffer).buf@, old(buffer).pos as int) ==> r is Ok,
    {
        let ghost b = buffer.buf@;
        let ghost s = buffer.pos as int;
        let header = DnsHeader::read(buffer)?;
        let mut questions: Vec<DnsQuestion> = Vec::new();
        let mut i: u16 = 0;
        while i < header.questions
            invariant
                buffer.wf(),
                buffer.buf@ == old(buffer).buf@,
                b == old(buffer).buf@,
                s == old(buffer).pos,
                i <= header.questions,
                questions@.len() == i,
                i == 0 ==> buffer.pos == s + 12,
                i >= 1 ==> question_read_at(b, s + 12, questions@[0]),
                i == 1 ==> buffer.pos == name_end(b, s + 12) + 4,
                header == header_of(b, s),
                s + 12 <= BUF_SIZE,
            decreases header.questions - i,
        {
            let q = DnsQuestion::read(buffer)?;
            questions.push(q);
            i = i + 1;
        }
        assert(parses_simply(b, s) ==> buffer.pos == records_start(b, s));
        let mut answers: Vec<DnsRecord> = Vec::new();
        read_records(buffer, header.answers, &mut answers)?;
        let mut authorities: Vec<DnsRecord> = Vec::new();
        assert(parses_simply(b, s) && header.answers == 0 ==> buffer.pos == records_start(b, s));
        read_records(buffer, header.authoritative_entries, &mut authorities)?;
        assert(parses_simply(b, s) && header.answers == 0 && header.authoritative_entries == 0 ==> buffer.pos
            == records_start(b, s));
        let mut resources: Vec<DnsRecord> = Vec::new();
        read_records(buffer, header.resource_entries, &mut resources)?;
        Ok(DnsPacket { header, questions, answers, authorities, resources })
    }

    /// Sets the header's counts from the lists, then writes the header, the
    /// questions and the records in order at the cursor.
    pub fn write(&mut self, buffer: &mut BytePacketBuffer) -> (r: Result<(), WireError>)
        requires
            old(buffer).wf(),
            old(self).questions@.len() <= u16::MAX,
            old(self).answers@.len() <= u16::MAX,
            old(self).authorities@.len() <= u16::MAX,
            old(self).resources@.len() <= u16::MAX,
        ensures
            final(buffer).wf(),
            final(self).header == (DnsHeader {
                questions: old(self).questions@.len() as u16,
                answers: old(self).answers@.len() as u16,
                authoritative_entries: old(self).authorities@.len() as u16,
                resource_entries: old(self).resources@.len() as u16,
                ..old(self).header
            }),
            final(self).questions == old(self).questions,
            final(self).answers == old(self).answers,
            final(self).authorities == old(self).authorities,
            final(self).resources == old(self).resources,
            old(buffer).pos + 12 > BUF_SIZE ==> r is Err,
            r is Ok ==> final(buffer).pos >= old(buffer).pos + 12 && final(buffer).buf@.subrange(
                old(buffer).pos as int,
                old(buffer).pos + 12,
            ) == header_bytes(final(self).header),
            r is Ok && old(self).questions@.len() == 1 ==> ({
                let q = old(self).questions@[0];
                let qb = question_bytes(q.name@, q.qtype);
                let a = old(buffer).pos + 12 + qb.len();
                &&& encode_name_spec(encode_utf8(q.name@)) is Some
                &&& final(buffer).pos >= a
                &&& final(buffer).buf@.subrange(old(buffer).pos + 12, a) == qb
                &&& old(self).answers@.len() >= 1 ==> match old(self).answers@[0] {
                    DnsRecord::A { domain, addr, ttl } => encode_name_spec(encode_utf8(domain@)) is Some
                        && final(buffer).pos >= a + a_record_bytes(domain@, addr@, ttl).len()
                        && final(buffer).buf@.subrange(a, a + a_record_bytes(domain@, addr@, ttl).len())
                        == a_record_bytes(domain@, addr@, ttl),
                    DnsRecord::UNKNOWN { .. } => true,
                }
            }),
            writes_simply(*old(self), old(buffer).pos as int) ==> r is Ok && final(buffer).pos == old(buffer).pos
                + packet_wire_len(*old(self)),
    {
        self.header.questions = self.questions.len() as u16;
        self.header.answers = self.answers.len() as u16;
        self.header.authoritative_entries = self.authorities.len() as u16;
        self.header.resource_entries = self.resources.len() as u16;
        let ghost p0 = buffer.pos as int;
        let ghost h = self.header;
        self.header.write(buffer)?;
        let ghost hb = buffer.buf@.take(p0 + 12);
        assert(hb.subrange(p0, p0 + 12) =~= header_bytes(self.header));
        let mut i: usize = 0;
        while i < self.questions.len()
            invariant
                buffer.wf(),
                self.header == h,
                p0 == old(buffer).pos,
                self.questions == old(self).questions,
                self.answers == old(self).answers,
                self.authorities == old(self).authorities,
                self.resources == old(self).resources,
                h == (DnsHeader {
                    questions: old(self).questions@.len() as u16,
                    answers: old(self).answers@.len() as u16,
                    authoritative_entries: old(self).authorities@.len() as u16,
                    resource_entries: old(self).resources@.len() as u16,
                    ..old(self).header
                }),
                buffer.pos >= p0 + 12,
                p0 + 12 <= BUF_SIZE,
                hb.len() == p0 + 12,
                buffer.buf@.take(p0 + 12) == hb,
                i <= self.questions@.len(),
                i == 0 ==> buffer.pos == p0 + 12,
                i == 1 && self.questions@.len() == 1 ==> ({
                    let q = self.questions@[0];
                    let qb = question_bytes(q.name@, q.qtype);
                    &&& encode_name_spec(encode_utf8(q.name@)) is Some
                    &&& buffer.pos == p0 + 12 + qb.len()
                    &&& buffer.buf@.subrange(p0 + 12, p0 + 12 + qb.len()) == qb
                }),
            decreases self.questions@.len() - i,
        {
            let ghost b = buffer.buf@;
            let ghost p = buffer.pos as int;
            proof {
                if i == 0 && writes_simply(*old(self), p0) {
                    let q = self.questions@[0];
                    assert(self.questions@.len() == 1);
                    assert(packet_wire_len(*old(self)) >= 12 + question_bytes(q.name@, q.qtype).len());
                    assert(p + question_bytes(q.name@, q.qtype).len() <= BUF_SIZE);
                }
            }
            self.questions[i].write(buffer)?;
            proof {
                if i == 0 {
                    let q = self.questions@[0];
                    let qb = question_bytes(q.name@, q.qtype);
                    assert(buffer.buf@.subrange(p, p + qb.len()) =~= qb);
                }
            }
            assert(buffer.buf@.take(p0 + 12) =~= hb) by {
                assert forall|j: int| 0 <= j < p0 + 12 implies buffer.buf@[j] == b[j] by {
                    assert(buffer.buf@.take(p)[j] == b.take(p)[j]);
                }
                assert forall|j: int| 0 <= j < p0 + 12 implies b[j] == hb[j] by {
                    assert(b.take(p0 + 12)[j] == hb[j]);
                }
            }
            i = i + 1;
        }
        let ghost b = buffer.buf@;
        let ghost p = buffer.pos as int;
        assert(writes_simply(*old(self), p0) ==> p == p0 + packet_wire_len(*old(self)) - (if self.answers@.len() == 1 {
            record_wire_len(self.answers@[0])
        } else {
            0
        }));
        write_records(buffer, &self.answers)?;
        let ghost b2 = buffer.buf@;
        let ghost p2 = buffer.pos as int;
        write_records(buffer, &self.authorities)?;
        write_records(buffer, &self.resources)?;
        proof {
            let fb = buffer.buf@;
            assert(fb.take(p2) =~= b2.take(p2)) by {
                assert forall|k: int| 0 <= k < p2 implies fb[k] == b2[k] by {
                    assert(fb.take(p2)[k] == b2.take(p2)[k]);
                }
            }
            if self.questions@.len() == 1 {
                let q = self.questions@[0];
                let qb = question_bytes(q.name@, q.qtype);
                lemma_prefix_keeps(b, b2, p, p0 + 12, p0 + 12 + qb.len());
                lemma_prefix_keeps(b2, fb, p2, p0 + 12, p0 + 12 + qb.len());
                if self.answers@.len() >= 1 {
                    match self.answers@[0] {
                        DnsRecord::A { domain, addr, ttl } => {
                            let rb = a_record_bytes(domain@, addr@, ttl);
                            lemma_prefix_keeps(b2, fb, p2, p, p + rb.len());
                        },
                        DnsRecord::UNKNOWN { .. } => {},
                    }
                }
            }
            assert forall|j: int| p0 <= j < p0 + 12 implies fb[j] == hb[j] by {
                assert(fb.take(p)[j] == b.take(p)[j]);
                assert(b.take(p0 + 12)[j] == hb[j]);
            }
            assert(fb.subrange(p0, p0 + 12) =~= hb.subrange(p0, p0 + 12));
        }
        Ok(())
    }
}

/// Reading back the bytes written for an A record gives its domain, TTL and
/// address, for an ASCII domain whose labels are non-empty and at most 63 bytes.
pub proof fn lemma_a_record_round_trip(domain: Seq<char>, addr: Seq<u8>, ttl: u32, b: Seq<u8>, p: int)
    requires
        is_ascii_chars(domain),
        labels_nonempty(encode_utf8(domain)),
        encode_name_spec(encode_utf8(domain)) is Some,
        addr.len() == 4,
        b.len() == BUF_SIZE,
        0 <= p,
        p + encode_name_spec(encode_utf8(domain)).unwrap().len() + 14 <= BUF_SIZE,
        b.subrange(p, p + encode_name_spec(encode_utf8(domain)).unwrap().len() + 14)
            == encode_name_spec(encode_utf8(domain)).unwrap() + a_record_tail(addr, ttl),
    ensures
        name_labels(b, p, MAX_JUMPS as nat) is Some,
        join_labels(name_labels(b, p, MAX_JUMPS as nat).unwrap()) == encode_utf8(domain),
        forall|n2: Seq<char>| #[trigger] name_read_as(b, p, n2) ==> n2 == domain,
        name_end(b, p) + 14 <= BUF_SIZE,
        be16(b, name_end(b, p)) == 1,
        be32(b, name_end(b, p) + 4) == ttl,
        b.subrange(name_end(b, p) + 10, name_end(b, p) + 14) == addr,
{
    let n = encode_utf8(domain);
    let e = encode_name_spec(n).unwrap();
    let rb = e + a_record_tail(addr, ttl);
    assert forall|k: int| 0 <= k < rb.len() implies b[p + k] == rb[k] by {
        assert(b.subrange(p, p + rb.len())[k] == rb[k]);
    }
    assert(b.subrange(p, p + e.len()) =~= e) by {
        assert forall|k: int| 0 <= k < e.len() implies b[p + k] == e[k] by {
            assert(b[p + k] == rb[k]);
        }
    }
    lemma_name_round_trip(n, b, p);
    is_ascii_chars_encode_utf8(domain);
    let j = join_labels(name_labels(b, p, MAX_JUMPS as nat).unwrap());
    assert(ascii_text(j) =~= domain);
    let q = p + e.len();
    assert forall|k: int| 0 <= k < 14 implies b[q + k] == a_record_tail(addr, ttl)[k] by {
        assert(b[p + (e.len() + k)] == rb[e.len() + k]);
    }
    assert(b.subrange(q + 10, q + 14) =~= addr) by {
        assert forall|k: int| 0 <= k < 4 implies b[q + 10 + k] == addr[k] by {
            assert(b[q + (10 + k)] == a_record_tail(addr, ttl)[10 + k]);
        }
    }
    assert(b[q] == 0 && b[q + 1] == 1) by {
        assert(b[q + 0] == a_record_tail(addr, ttl)[0]);
        assert(b[q + 1] == a_record_tail(addr, ttl)[1]);
    }
    assert(b[q + 4] == a_record_tail(addr, ttl)[4]);
    assert(b[q + 5] == a_record_tail(addr, ttl)[5]);
    assert(b[q + 6] == a_record_tail(addr, ttl)[6]);
    assert(b[q + 7] == a_record_tail(addr, ttl)[7]);
}

/// A header is read from its 12 bytes alone.
pub proof fn lemma_header_at(b: Seq<u8>, p: int, hb: Seq<u8>)
    requires
        0 <= p,
        p + 12 <= b.len(),
        hb.len() == 12,
        forall|k: int| 0 <= k < 12 ==> b[p + k] == hb[k],
    ensures
        header_of(b, p) == header_of(hb, 0),
{
    assert(b[p + 0] == hb[0] && b[p + 1] == hb[1] && b[p + 2] == hb[2] && b[p + 3] == hb[3]);
    assert(b[p + 4] == hb[4] && b[p + 5] == hb[5] && b[p + 6] == hb[6] && b[p + 7] == hb[7]);
    assert(b[p + 8] == hb[8] && b[p + 9] == hb[9] && b[p + 10] == hb[10] && b[p + 11] == hb[11]);
}

/// Reading back a packet of one question, as `DnsPacket::write` lays it out,
/// gives the header (counts included) and the question; an A answer written
/// after the question reads back with its domain, TTL and address. Names are
/// ASCII, with non-empty labels of at most 63 bytes.
pub proof fn lemma_packet_round_trip(h: DnsHeader, q: DnsQuestion, answer: DnsRecord, b: Seq<u8>, p: int)
    requires
        h.opcode < 16,
        b.len() == BUF_SIZE,
        0 <= p,
        p + 12 <= BUF_SIZE,
        b.subrange(p, p + 12) == header_bytes(h),
        is_ascii_chars(q.name@),
        labels_nonempty(encode_utf8(q.name@)),
        encode_name_spec(encode_utf8(q.name@)) is Some,
        q.qtype != QueryType::UNKNOWN(1),
        p + 12 + question_bytes(q.name@, q.qtype).len() <= BUF_SIZE,
        b.subrange(p + 12, p + 12 + question_bytes(q.name@, q.qtype).len()) == question_bytes(q.name@, q.qtype),
        answer matches DnsRecord::A { domain, .. } ==> is_ascii_chars(domain@) && labels_nonempty(encode_utf8(domain@))
            && encode_name_spec(encode_utf8(domain@)) is Some,
    ensures
        header_of(b, p) == h,
        name_end(b, p + 12) + 4 == p + 12 + question_bytes(q.name@, q.qtype).len(),
        forall|q2: DnsQuestion| #[trigger] question_read_at(b, p + 12, q2) ==> q2.name@ == q.name@ && q2.qtype == q.qtype,
        match answer {
            DnsRecord::A { domain, addr, ttl } => {
                let a = name_end(b, p + 12) + 4;
                let rb = a_record_bytes(domain@, addr@, ttl);
                addr@.len() == 4 && a + rb.len() <= BUF_SIZE && b.subrange(a, a + rb.len()) == rb ==> forall|r2: DnsRecord|
                    #[trigger] record_read_at(b, a, r2) ==> match r2 {
                        DnsRecord::A { domain: d2, addr: a2, ttl: t2 } => d2@ == domain@ && a2@ == addr@ && t2 == ttl,
                        DnsRecord::UNKNOWN { .. } => false,
                    }
            },
            DnsRecord::UNKNOWN { .. } => true,
        },
{
    let hb = header_bytes(h);
    assert forall|k: int| 0 <= k < 12 implies b[p + k] == hb[k] by {
        assert(b.subrange(p, p + 12)[k] == hb[k]);
    }
    lemma_header_at(b, p, hb);
    lemma_header_round_trip(h);
    lemma_question_round_trip(q.name@, q.qtype, b, p + 12);
    let n = encode_utf8(q.name@);
    is_ascii_chars_encode_utf8(q.name@);
    assert(all_ascii(join_labels(name_labels(b, p + 12, MAX_JUMPS as nat).unwrap())));
    assert(ascii_text(n) =~= q.name@);
    match answer {
        DnsRecord::A { domain, addr, ttl } => {
            let a = name_end(b, p + 12) + 4;
            let rb = a_record_bytes(domain@, addr@, ttl);
            if addr@.len() == 4 && a + rb.len() <= BUF_SIZE && b.subrange(a, a + rb.len()) == rb {
                lemma_a_record_round_trip(domain@, addr@, ttl, b, a);
                let dn = encode_utf8(domain@);
                is_ascii_chars_encode_utf8(domain@);
                assert(all_ascii(join_labels(name_labels(b, a, MAX_JUMPS as nat).unwrap())));
                assert(ascii_text(dn) =~= domain@);
                assert forall|r2: DnsRecord| #[trigger] record_read_at(b, a, r2) implies match r2 {
                    DnsRecord::A { domain: d2, addr: a2, ttl: t2 } => d2@ == domain@ && a2@ == addr@ && t2 == ttl,
                    DnsRecord::UNKNOWN { .. } => false,
                } by {
                    match r2 {
                        DnsRecord::A { domain: d2, addr: a2, ttl: t2 } => {
                            assert(a2@ =~= addr@);
                        },
                        DnsRecord::UNKNOWN { .. } => {},
                    }
                }
            }
        },
        DnsRecord::UNKNOWN { .. } => {},
    }
}

} // verus!
