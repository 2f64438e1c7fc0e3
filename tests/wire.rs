use dns_drop::cache::MessageBufferCache;
use dns_drop::packet::{DnsHeader, DnsPacket, DnsQuestion, DnsRecord, QueryType, ResultCode};
use dns_drop::server::{handle_packet, respond, QueryError};
use dns_drop::wire::{encode_name, BytePacketBuffer, WireError};

#[test]
fn read_past_end_fails() {
    let mut b = BytePacketBuffer::new();
    assert_eq!(b.seek(511), Ok(()));
    assert_eq!(b.read(), Ok(0));
    assert_eq!(b.read(), Err(WireError::EndOfBuffer));
    assert_eq!(b.seek(510), Ok(()));
    assert_eq!(b.read_u32(), Err(WireError::EndOfBuffer));
    assert_eq!(b.read_u16(), Ok(0));
    assert_eq!(b.seek(513), Err(WireError::EndOfBuffer));
    assert_eq!(b.get(512), Err(WireError::EndOfBuffer));
    assert!(b.get_range(500, 13).is_err());
    assert_eq!(b.step(1), Err(WireError::EndOfBuffer));
}

#[test]
fn integers_are_big_endian() {
    let mut b = BytePacketBuffer::new();
    b.write_u16(0x1234).unwrap();
    b.write_u32(0xDEADBEEF).unwrap();
    b.write_u8(7).unwrap();
    assert_eq!(b.get_data(), vec![0x12, 0x34, 0xDE, 0xAD, 0xBE, 0xEF, 7]);
    b.seek(0).unwrap();
    assert_eq!(b.read_u16(), Ok(0x1234));
    assert_eq!(b.read_u32(), Ok(0xDEADBEEF));
    assert_eq!(b.pos(), 6);
}

#[test]
fn write_past_end_fails() {
    let mut b = BytePacketBuffer::new();
    b.seek(511).unwrap();
    assert_eq!(b.write_u16(1), Err(WireError::EndOfBuffer));
    assert_eq!(b.pos(), 511);
    assert_eq!(b.write_u8(1), Ok(()));
    assert_eq!(b.write_u8(1), Err(WireError::EndOfBuffer));
}

#[test]
fn names_encode_as_labels() {
    assert_eq!(encode_name(b"ab.c").unwrap(), vec![2, b'a', b'b', 1, b'c', 0]);
    assert_eq!(encode_name(b"").unwrap(), vec![0]);
    assert_eq!(encode_name(b"ab.").unwrap(), vec![2, b'a', b'b', 0]);
    let long = [b'x'; 64];
    assert_eq!(encode_name(&long), Err(WireError::LabelTooLong));
}

#[test]
fn name_round_trip_and_compression() {
    let mut b = BytePacketBuffer::new();
    b.write_qname("foo.co").unwrap();
    // a second name "www" + pointer to offset 0
    b.write_u8(3).unwrap();
    b.write_u8(b'w').unwrap();
    b.write_u8(b'w').unwrap();
    b.write_u8(b'w').unwrap();
    b.write_u8(0xC0).unwrap();
    b.write_u8(0).unwrap();
    b.seek(0).unwrap();
    assert_eq!(b.read_qname().unwrap(), "foo.co");
    assert_eq!(b.pos(), 8);
    assert_eq!(b.read_qname().unwrap(), "www.foo.co");
    assert_eq!(b.pos(), 14);
}

#[test]
fn pointer_loop_is_rejected() {
    let mut b = BytePacketBuffer::new();
    b.write_u8(0xC0).unwrap();
    b.write_u8(0).unwrap();
    b.seek(0).unwrap();
    assert_eq!(b.read_qname(), Err(WireError::TooManyJumps));
}

fn sample_packet(with_answer: bool) -> DnsPacket {
    let mut p = DnsPacket::new();
    p.header.id = 0xBEEF;
    p.header.response = true;
    p.header.recursion_desired = true;
    p.header.rescode = ResultCode::NXDOMAIN;
    p.questions.push(DnsQuestion::new(String::from("aaaa.foo.co"), QueryType::A));
    if with_answer {
        p.answers.push(DnsRecord::A { domain: String::from("aaaa.foo.co"), addr: [10, 1, 2, 3], ttl: 255 });
    }
    p
}

#[test]
fn packet_round_trip() {
    for with_answer in [false, true] {
        let mut p = sample_packet(with_answer);
        let mut b = BytePacketBuffer::new();
        p.write(&mut b).unwrap();
        b.seek(0).unwrap();
        let q = DnsPacket::from_buffer(&mut b).unwrap();
        assert_eq!(q.header, p.header);
        assert_eq!(q.header.questions, 1);
        assert_eq!(q.header.answers, if with_answer { 1 } else { 0 });
        assert_eq!(q.questions.len(), 1);
        assert_eq!(q.questions[0].name, "aaaa.foo.co");
        assert_eq!(q.questions[0].qtype, QueryType::A);
        assert_eq!(q.answers.len(), if with_answer { 1 } else { 0 });
        if with_answer {
            match &q.answers[0] {
                DnsRecord::A { domain, addr, ttl } => {
                    assert_eq!(domain, "aaaa.foo.co");
                    assert_eq!(*addr, [10, 1, 2, 3]);
                    assert_eq!(*ttl, 255);
                }
                _ => panic!("expected an A record"),
            }
        }
    }
}

#[test]
fn header_flags_round_trip() {
    let mut h = DnsHeader::new();
    h.id = 7;
    h.opcode = 9;
    h.truncated_message = true;
    h.authed_data = true;
    h.recursion_available = true;
    h.rescode = ResultCode::REFUSED;
    let mut b = BytePacketBuffer::new();
    h.write(&mut b).unwrap();
    assert_eq!(b.get_data(), vec![0, 7, 0b0100_1010, 0b1010_0101, 0, 0, 0, 0, 0, 0, 0, 0]);
    b.seek(0).unwrap();
    assert_eq!(DnsHeader::read(&mut b).unwrap(), h);
}

#[test]
fn unknown_record_is_skipped() {
    let mut b = BytePacketBuffer::new();
    b.write_qname("x").unwrap();
    b.write_u16(16).unwrap();
    b.write_u16(1).unwrap();
    b.write_u32(60).unwrap();
    b.write_u16(3).unwrap();
    b.write_u8(1).unwrap();
    b.write_u8(2).unwrap();
    b.write_u8(3).unwrap();
    b.seek(0).unwrap();
    match DnsRecord::read(&mut b).unwrap() {
        DnsRecord::UNKNOWN { domain, qtype, data_len, ttl } => {
            assert_eq!(domain, "x");
            assert_eq!(qtype, 16);
            assert_eq!(data_len, 3);
            assert_eq!(ttl, 60);
        }
        _ => panic!("expected an unknown record"),
    }
    assert_eq!(b.pos(), 16);
}

#[test]
fn response_without_question_is_formerr() {
    let mut cache = MessageBufferCache::new(3);
    let mut req = DnsPacket::new();
    req.header.id = 42;
    let (resp, result) = respond(&req, &mut cache, "foo.co", &[0; 8]);
    assert_eq!(resp.header.id, 42);
    assert_eq!(resp.header.rescode, ResultCode::FORMERR);
    assert!(resp.answers.is_empty());
    assert!(matches!(result, Err(QueryError::NoQuestion)));
}

fn query_bytes(id: u16, name: &str) -> BytePacketBuffer {
    let mut p = DnsPacket::new();
    p.header.id = id;
    p.header.recursion_desired = true;
    p.questions.push(DnsQuestion::new(String::from(name), QueryType::A));
    let mut b = BytePacketBuffer::new();
    p.write(&mut b).unwrap();
    b.seek(0).unwrap();
    b
}

fn answer_addr(bytes: &[u8]) -> [u8; 4] {
    let mut b = BytePacketBuffer::new();
    for (i, x) in bytes.iter().enumerate() {
        b.buf[i] = *x;
    }
    let p = DnsPacket::from_buffer(&mut b).unwrap();
    match &p.answers[0] {
        DnsRecord::A { addr, ttl, .. } => {
            assert_eq!(*ttl, 255);
            *addr
        }
        _ => panic!("expected an A record"),
    }
}

#[test]
fn datagrams_drive_the_protocol() {
    let mut cache = MessageBufferCache::new(3);
    let t: [u8; 8] = [1, 2, 3, 4, 5, 0, 0, 0];
    let mut q1 = query_bytes(1, "AAAAAAAAAAAAAAAAPMRGM33PEI5.foo.co");
    let (data, result) = handle_packet(&mut q1, &mut cache, "foo.co", &t).unwrap();
    assert!(!result.unwrap().is_complete);
    assert_eq!(answer_addr(&data), [10, 1, 2, 3]);
    let mut q2 = query_bytes(2, "BBAAAAAAAAAAAAAACEYTBOIRH2.foo.co");
    let (data, result) = handle_packet(&mut q2, &mut cache, "foo.co", &t).unwrap();
    let m = result.unwrap();
    assert!(m.is_complete);
    assert_eq!(m.id, "AAAAAAAAAAAAA");
    assert_eq!(answer_addr(&data), [11, 4, 5, 1]);
    assert_eq!(cache.get_value("AAAAAAAAAAAAA").unwrap(), b"{\"foo\":\"bar\"}".to_vec());
    let mut q3 = query_bytes(3, "garbage.foo.co");
    let (data, result) = handle_packet(&mut q3, &mut cache, "foo.co", &t).unwrap();
    assert!(result.is_err());
    assert_eq!(answer_addr(&data), [10, 1, 2, 3]);
}

#[test]
fn malformed_datagram_gets_formerr() {
    let mut cache = MessageBufferCache::new(3);
    let mut b = BytePacketBuffer::new();
    b.write_u16(0x1234).unwrap();
    b.write_u16(0x0100).unwrap();
    b.write_u16(1).unwrap();
    b.write_u16(0).unwrap();
    b.write_u16(0).unwrap();
    b.write_u16(0).unwrap();
    // the question's name is a pointer to itself
    b.write_u8(0xC0).unwrap();
    b.write_u8(12).unwrap();
    b.seek(0).unwrap();
    let (data, result) = handle_packet(&mut b, &mut cache, "foo.co", &[0; 8]).unwrap();
    assert!(matches!(result, Err(QueryError::Malformed(WireError::TooManyJumps))));
    let mut rb = BytePacketBuffer::new();
    for (i, x) in data.iter().enumerate() {
        rb.buf[i] = *x;
    }
    let resp = DnsPacket::from_buffer(&mut rb).unwrap();
    assert_eq!(resp.header.id, 0x1234);
    assert_eq!(resp.header.rescode, ResultCode::FORMERR);
    assert!(resp.header.response);
    assert_eq!(cache.len(), 0);
}

#[test]
fn completion_is_handed_off_once() {
    let mut cache = MessageBufferCache::new(3);
    let t: [u8; 8] = [9, 8, 7, 6, 5, 4, 3, 2];
    let mut q1 = query_bytes(1, "AAAAAAAAAAAAAAAAPMRGM33PEI5.foo.co");
    let (_, r1) = handle_packet(&mut q1, &mut cache, "foo.co", &t).unwrap();
    assert!(!r1.unwrap().newly_complete);
    let mut q2 = query_bytes(2, "BBAAAAAAAAAAAAAACEYTBOIRH2.foo.co");
    let (_, r2) = handle_packet(&mut q2, &mut cache, "foo.co", &t).unwrap();
    let m2 = r2.unwrap();
    assert!(m2.is_complete && m2.newly_complete);
    let mut q3 = query_bytes(3, "BBAAAAAAAAAAAAAACEYTBOIRH2.foo.co");
    let (data, r3) = handle_packet(&mut q3, &mut cache, "foo.co", &t).unwrap();
    let m3 = r3.unwrap();
    assert!(m3.is_complete);
    assert!(!m3.newly_complete);
    assert_eq!(answer_addr(&data)[0], 11);
}

#[test]
fn unknown_additional_record_is_skipped_and_answered() {
    let mut cache = MessageBufferCache::new(3);
    let mut b = BytePacketBuffer::new();
    b.write_u16(77).unwrap();
    b.write_u16(0x0100).unwrap();
    b.write_u16(1).unwrap();
    b.write_u16(0).unwrap();
    b.write_u16(0).unwrap();
    b.write_u16(1).unwrap();
    b.write_qname("AAAAAAAAAAAAAAAAPMRGM33PEI5.foo.co").unwrap();
    b.write_u16(1).unwrap();
    b.write_u16(1).unwrap();
    // an OPT record: root name, type 41, class, ttl, two data bytes
    b.write_u8(0).unwrap();
    b.write_u16(41).unwrap();
    b.write_u16(4096).unwrap();
    b.write_u32(0).unwrap();
    b.write_u16(2).unwrap();
    b.write_u16(0xABCD).unwrap();
    b.seek(0).unwrap();
    let (data, result) = handle_packet(&mut b, &mut cache, "foo.co", &[0; 8]).unwrap();
    assert!(result.is_ok());
    let mut rb = BytePacketBuffer::new();
    for (i, x) in data.iter().enumerate() {
        rb.buf[i] = *x;
    }
    let resp = DnsPacket::from_buffer(&mut rb).unwrap();
    assert_eq!(resp.header.id, 77);
    assert_eq!(resp.header.rescode, ResultCode::NOERROR);
    assert_eq!(resp.answers.len(), 1);
    assert_eq!(resp.questions[0].name, "AAAAAAAAAAAAAAAAPMRGM33PEI5.foo.co");
}

#[test]
fn unknown_record_is_not_written() {
    let mut b = BytePacketBuffer::new();
    let r = DnsRecord::UNKNOWN { domain: String::from("x"), qtype: 41, data_len: 0, ttl: 0 };
    assert_eq!(r.write(&mut b), Err(WireError::UnsupportedRecord));
    assert_eq!(b.pos(), 0);
}
