use dnsserv::buffer::BytePacketBuffer;
use dnsserv::protocol::DnsError;
use dnsserv::protocol::QueryType;
use dnsserv::protocol::ResultCode;

#[test]
fn bounds_write_at_511_succeeds_at_512_fails() {
    let mut buffer = BytePacketBuffer::new();
    buffer.seek(511).unwrap();
    assert_eq!(buffer.write(0xAB), Ok(()));
    assert_eq!(buffer.pos(), 512);
    assert_eq!(buffer.write(0xCD), Err(DnsError::BufferOverrun));
}

#[test]
fn bounds_read_at_511_succeeds_at_512_fails() {
    let mut buffer = BytePacketBuffer::new();
    buffer.seek(511).unwrap();
    buffer.write(0x7F).unwrap();
    buffer.seek(511).unwrap();
    assert_eq!(buffer.read(), Ok(0x7F));
    assert_eq!(buffer.read(), Err(DnsError::BufferOverrun));
    assert_eq!(buffer.get(511), Ok(0x7F));
    assert_eq!(buffer.get(512), Err(DnsError::BufferOverrun));
}

#[test]
fn u16_and_u32_round_trip() {
    let mut buffer = BytePacketBuffer::new();
    buffer.write_u16(0xBEEF).unwrap();
    buffer.write_u32(0x01020304).unwrap();
    buffer.seek(0).unwrap();
    assert_eq!(buffer.read_u16(), Ok(0xBEEF));
    assert_eq!(buffer.read_u32(), Ok(0x01020304));
}

#[test]
fn patching_overwrites_without_moving_cursor() {
    let mut buffer = BytePacketBuffer::new();
    buffer.write_u16(0).unwrap();
    buffer.set_u16(0, 0x1234).unwrap();
    assert_eq!(buffer.pos(), 2);
    buffer.seek(0).unwrap();
    assert_eq!(buffer.read_u16(), Ok(0x1234));
}

#[test]
fn patching_at_511_succeeds_at_512_fails() {
    let mut buffer = BytePacketBuffer::new();
    assert_eq!(buffer.set(511, 0x5A), Ok(()));
    assert_eq!(buffer.get(511), Ok(0x5A));
    assert_eq!(buffer.set(512, 0x5A), Err(DnsError::BufferOverrun));
    assert_eq!(buffer.set_u16(510, 0x0102), Ok(()));
    assert_eq!(buffer.set_u16(511, 0x0304), Err(DnsError::BufferOverrun));
    assert_eq!(buffer.set_u16(512, 0x0506), Err(DnsError::BufferOverrun));
    // the partial overwrite of the straddling patch reached offset 511
    assert_eq!(buffer.get(511), Ok(3));
}

#[test]
fn qname_round_trip() {
    let mut buffer = BytePacketBuffer::new();
    buffer.write_qname(b"example.com").unwrap();
    assert_eq!(buffer.pos(), 13);
    buffer.seek(0).unwrap();
    let mut out = Vec::new();
    buffer.read_qname(&mut out).unwrap();
    assert_eq!(out, b"example.com".to_vec());
    assert_eq!(buffer.pos(), 13);
}

#[test]
fn qname_decode_folds_case() {
    let mut buffer = BytePacketBuffer::new();
    buffer.write_qname(b"EXample.COM").unwrap();
    buffer.seek(0).unwrap();
    let mut out = Vec::new();
    buffer.read_qname(&mut out).unwrap();
    assert_eq!(out, b"example.com".to_vec());
}

#[test]
fn label_of_63_octets_succeeds_64_fails() {
    let long63 = vec![b'a'; 63];
    let mut name = long63.clone();
    name.extend_from_slice(b".com");
    let mut buffer = BytePacketBuffer::new();
    assert_eq!(buffer.write_qname(&name), Ok(()));

    let long64 = vec![b'a'; 64];
    let mut name64 = long64.clone();
    name64.extend_from_slice(b".com");
    let mut buffer64 = BytePacketBuffer::new();
    assert_eq!(buffer64.write_qname(&name64), Err(DnsError::LabelTooLong));
    // the offending first label wrote nothing: cursor and buffer untouched
    assert_eq!(buffer64.pos(), 0);
    assert_eq!(buffer64.get(0), Ok(0));
}

#[test]
fn labels_before_an_offending_one_stay_written() {
    let mut name = b"ab.".to_vec();
    name.extend_from_slice(&vec![b'c'; 64]);
    let mut buffer = BytePacketBuffer::new();
    assert_eq!(buffer.write_qname(&name), Err(DnsError::LabelTooLong));
    // no rollback: the first label and its length octet stand, the cursor
    // rests past them
    assert_eq!(buffer.pos(), 3);
    assert_eq!(buffer.get(0), Ok(2));
    assert_eq!(buffer.get(1), Ok(b'a'));
    assert_eq!(buffer.get(2), Ok(b'b'));
}

#[test]
fn pointer_cycle_fails_with_excessive_jumps() {
    let mut buffer = BytePacketBuffer::new();
    // a pointer at offset 12 that resolves back to offset 12
    buffer.set(12, 0xC0).unwrap();
    buffer.set(13, 12).unwrap();
    buffer.seek(12).unwrap();
    let mut out = Vec::new();
    assert_eq!(
        buffer.read_qname(&mut out),
        Err(DnsError::ExcessiveCompressionJumps)
    );
    // nothing was emitted, and the cursor rests right past the pointer
    assert!(out.is_empty());
    assert_eq!(buffer.pos(), 14);
}

#[test]
fn compressed_name_decodes_like_spelled_out() {
    let mut buffer = BytePacketBuffer::new();
    // the spelled-out name at offset 12
    buffer.seek(12).unwrap();
    buffer.write_qname(b"example.com").unwrap();
    // a compression pointer to it at offset 40
    buffer.set(40, 0xC0).unwrap();
    buffer.set(41, 12).unwrap();

    let mut direct = Vec::new();
    buffer.seek(12).unwrap();
    buffer.read_qname(&mut direct).unwrap();

    let mut via_pointer = Vec::new();
    buffer.seek(40).unwrap();
    buffer.read_qname(&mut via_pointer).unwrap();

    assert_eq!(direct, via_pointer);
    assert_eq!(via_pointer, b"example.com".to_vec());
    // the cursor rests right past the pointer
    assert_eq!(buffer.pos(), 42);
}

#[test]
fn pointer_outside_buffer_is_malformed() {
    let mut buffer = BytePacketBuffer::new();
    // a pointer to offset 600, past the end of the region
    buffer.set(0, 0xC2).unwrap();
    buffer.set(1, 0x58).unwrap();
    let mut out = Vec::new();
    assert_eq!(buffer.read_qname(&mut out), Err(DnsError::MalformedName));
}

#[test]
fn query_type_codes_round_trip() {
    for qt in [
        QueryType::A,
        QueryType::NS,
        QueryType::CNAME,
        QueryType::MX,
        QueryType::AAAA,
        QueryType::UNKNOWN(999),
    ] {
        assert_eq!(QueryType::from_num(qt.to_num()), qt);
    }
    assert_eq!(QueryType::A.to_num(), 1);
    assert_eq!(QueryType::NS.to_num(), 2);
    assert_eq!(QueryType::CNAME.to_num(), 5);
    assert_eq!(QueryType::MX.to_num(), 15);
    assert_eq!(QueryType::AAAA.to_num(), 28);
}

#[test]
fn result_codes_round_trip_and_fall_back() {
    for rc in [
        ResultCode::NOERROR,
        ResultCode::FORMERR,
        ResultCode::SERVFAIL,
        ResultCode::NXDOMAIN,
        ResultCode::NOTIMP,
        ResultCode::REFUSED,
    ] {
        assert_eq!(ResultCode::from_num(rc.to_num()), rc);
    }
    assert_eq!(ResultCode::from_num(9), ResultCode::NOERROR);
}
