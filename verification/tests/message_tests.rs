use dnsserv::buffer::BytePacketBuffer;
use dnsserv::header::DnsHeader;
use dnsserv::packet::DnsPacket;
use dnsserv::protocol::QueryType;
use dnsserv::protocol::ResultCode;
use dnsserv::question::DnsQuestion;
use dnsserv::record::DnsRecord;
use dnsserv::resolver::assemble_response;
use dnsserv::resolver::build_lookup_packet;

fn sample_header() -> DnsHeader {
    let mut h = DnsHeader::new();
    h.id = 0x1A2B;
    h.recursion_desired = true;
    h.authoritative_answer = true;
    h.opcode = 4;
    h.response = true;
    h.rescode = ResultCode::NXDOMAIN;
    h.recursion_available = true;
    h.z = true;
    h
}

#[test]
fn header_round_trip() {
    let header = sample_header();
    let mut buffer = BytePacketBuffer::new();
    header.write(&mut buffer).unwrap();
    assert_eq!(buffer.pos(), 12);
    buffer.seek(0).unwrap();
    let mut decoded = DnsHeader::new();
    decoded.read(&mut buffer).unwrap();
    assert_eq!(decoded, header);
}

fn sample_packet() -> DnsPacket {
    let mut packet = DnsPacket::new();
    packet.header.id = 0x4242;
    packet.header.recursion_desired = true;
    packet.header.response = true;
    packet.questions.push(DnsQuestion::new(b"example.com".to_vec(), QueryType::A));
    packet.answers.push(DnsRecord::A {
        domain: b"example.com".to_vec(),
        addr: [93, 184, 216, 34],
        ttl: 3600,
    });
    packet.answers.push(DnsRecord::AAAA {
        domain: b"example.com".to_vec(),
        addr: [0x26, 0x06, 0x28, 0, 0x02, 0x20, 0, 1, 2, 4, 8, 16, 32, 64, 1, 2],
        ttl: 60,
    });
    packet.authorities.push(DnsRecord::NS {
        domain: b"example.com".to_vec(),
        host: b"ns.example.com".to_vec(),
        ttl: 86400,
    });
    packet.resources.push(DnsRecord::MX {
        domain: b"example.com".to_vec(),
        priority: 10,
        host: b"mail.example.com".to_vec(),
        ttl: 300,
    });
    packet.resources.push(DnsRecord::CNAME {
        domain: b"www.example.com".to_vec(),
        host: b"example.com".to_vec(),
        ttl: 120,
    });
    packet
}

#[test]
fn packet_round_trip_through_the_wire() {
    let mut packet = sample_packet();
    let mut buffer = BytePacketBuffer::new();
    packet.write(&mut buffer).unwrap();
    // encoding rewrote the counts from the section lengths
    assert_eq!(packet.header.questions, 1);
    assert_eq!(packet.header.answers, 2);
    assert_eq!(packet.header.authoritative_entries, 1);
    assert_eq!(packet.header.resource_entries, 2);

    buffer.seek(0).unwrap();
    let decoded = DnsPacket::from_buffer(&mut buffer).unwrap();
    assert_eq!(decoded, packet);
}

#[test]
fn bytes_round_trip_through_the_model() {
    // encode a packet, decode it, re-encode the decoded packet: the wire
    // octets come out identical
    let mut packet = sample_packet();
    let mut first = BytePacketBuffer::new();
    packet.write(&mut first).unwrap();
    let len = first.pos();

    first.seek(0).unwrap();
    let mut decoded = DnsPacket::from_buffer(&mut first).unwrap();

    let mut second = BytePacketBuffer::new();
    decoded.write(&mut second).unwrap();
    assert_eq!(second.pos(), len);
    assert_eq!(first.get_range(0, len).unwrap(), second.get_range(0, len).unwrap());
}

#[test]
fn unknown_record_payload_is_skipped() {
    let mut buffer = BytePacketBuffer::new();
    buffer.write_qname(b"odd.example").unwrap();
    buffer.write_u16(61).unwrap(); // a type the codec has no variant for
    buffer.write_u16(1).unwrap();
    buffer.write_u32(500).unwrap();
    buffer.write_u16(3).unwrap(); // payload length
    buffer.write_u8(9).unwrap();
    buffer.write_u8(8).unwrap();
    buffer.write_u8(7).unwrap();
    let end = buffer.pos();
    buffer.seek(0).unwrap();
    let rec = DnsRecord::read(&mut buffer).unwrap();
    assert_eq!(
        rec,
        DnsRecord::UNKNOWN { domain: b"odd.example".to_vec(), qtype: 61, data_len: 3, ttl: 500 }
    );
    assert_eq!(buffer.pos(), end);
}

#[test]
fn lookup_packet_has_one_question_and_recursion() {
    let packet = build_lookup_packet(b"example.com", QueryType::MX);
    assert_eq!(packet.header.id, 6666);
    assert_eq!(packet.header.questions, 1);
    assert!(packet.header.recursion_desired);
    assert!(!packet.header.response);
    assert_eq!(packet.questions.len(), 1);
    assert_eq!(packet.questions[0].name, b"example.com".to_vec());
    assert_eq!(packet.questions[0].qtype, QueryType::MX);
    assert!(packet.answers.is_empty());
    assert!(packet.authorities.is_empty());
    assert!(packet.resources.is_empty());
}

#[test]
fn end_to_end_success_copies_the_answer() {
    // the inbound query: id 42, one question for ("example.com", A)
    let mut inbound = DnsPacket::new();
    inbound.header.id = 42;
    inbound.header.recursion_desired = true;
    inbound.questions.push(DnsQuestion::new(b"example.com".to_vec(), QueryType::A));
    let mut wire = BytePacketBuffer::new();
    inbound.write(&mut wire).unwrap();

    // the server side decodes it and picks the question to forward
    wire.seek(0).unwrap();
    let mut request = DnsPacket::from_buffer(&mut wire).unwrap();
    let question = request.take_last_question().unwrap();
    assert_eq!(question.name, b"example.com".to_vec());

    // the upstream reply: NOERROR with one A record
    let mut reply = DnsPacket::new();
    reply.header.id = 6666;
    reply.header.response = true;
    reply.header.rescode = ResultCode::NOERROR;
    reply.answers.push(DnsRecord::A {
        domain: b"example.com".to_vec(),
        addr: [93, 184, 216, 34],
        ttl: 3600,
    });

    let mut response = assemble_response(request.header.id, Some(question), Some(reply));
    let mut out = BytePacketBuffer::new();
    response.write(&mut out).unwrap();
    out.seek(0).unwrap();
    let sent = DnsPacket::from_buffer(&mut out).unwrap();

    assert_eq!(sent.header.id, 42);
    assert_eq!(sent.header.rescode, ResultCode::NOERROR);
    assert!(sent.header.response);
    assert_eq!(sent.answers.len(), 1);
    assert_eq!(
        sent.answers[0],
        DnsRecord::A { domain: b"example.com".to_vec(), addr: [93, 184, 216, 34], ttl: 3600 }
    );
    assert_eq!(sent.authorities.len(), 0);
    assert_eq!(sent.resources.len(), 0);
}

#[test]
fn zero_question_request_yields_formerr() {
    let mut response = assemble_response(77, None, None);
    let mut out = BytePacketBuffer::new();
    response.write(&mut out).unwrap();
    out.seek(0).unwrap();
    let sent = DnsPacket::from_buffer(&mut out).unwrap();
    assert_eq!(sent.header.id, 77);
    assert_eq!(sent.header.rescode, ResultCode::FORMERR);
    assert!(sent.header.response);
    assert_eq!(sent.answers.len(), 0);
    assert_eq!(sent.authorities.len(), 0);
    assert_eq!(sent.resources.len(), 0);
}

#[test]
fn transport_failure_yields_servfail_with_same_id() {
    let question = DnsQuestion::new(b"example.com".to_vec(), QueryType::A);
    let mut response = assemble_response(91, Some(question), None);
    let mut out = BytePacketBuffer::new();
    response.write(&mut out).unwrap();
    out.seek(0).unwrap();
    let sent = DnsPacket::from_buffer(&mut out).unwrap();
    assert_eq!(sent.header.id, 91);
    assert_eq!(sent.header.rescode, ResultCode::SERVFAIL);
    // the question is re-embedded even though resolution failed
    assert_eq!(sent.questions.len(), 1);
    assert_eq!(sent.questions[0].name, b"example.com".to_vec());
    assert_eq!(sent.questions[0].qtype, QueryType::A);
    assert_eq!(sent.answers.len(), 0);
    assert_eq!(sent.authorities.len(), 0);
    assert_eq!(sent.resources.len(), 0);
}
