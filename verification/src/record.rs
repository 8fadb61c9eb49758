use vstd::prelude::*;

use crate::buffer::BytePacketBuffer;
use crate::buffer::name_end;
use crate::buffer::parse_name_at;
use crate::buffer::qname_enc;
use crate::buffer::qname_wire;
use crate::buffer::u16_be;
use crate::buffer::u16_hi;
use crate::buffer::u16_lo;
use crate::buffer::u32_be;
use crate::buffer::u32_octet;
use crate::protocol::DnsError;
use crate::protocol::QueryType;

verus! {

/// One resource record, dispatched on its type. An `UNKNOWN` record keeps
/// its raw type code and the length of the payload it skipped, but not the
/// payload itself.
#[derive(Clone, Debug, PartialEq, Eq)]
pub enum DnsRecord {
    UNKNOWN { domain: Vec<u8>, qtype: u16, data_len: u16, ttl: u32 },
    A { domain: Vec<u8>, addr: [u8; 4], ttl: u32 },
    NS { domain: Vec<u8>, host: Vec<u8>, ttl: u32 },
    CNAME { domain: Vec<u8>, host: Vec<u8>, ttl: u32 },
    MX { domain: Vec<u8>, priority: u16, host: Vec<u8>, ttl: u32 },
    AAAA { domain: Vec<u8>, addr: [u8; 16], ttl: u32 },
}

/// The mathematical shape of a record: names and addresses as octet
/// sequences.
pub enum RecordV {
    UNKNOWN { domain: Seq<u8>, qtype: u16, data_len: u16, ttl: u32 },
    A { domain: Seq<u8>, addr: Seq<u8>, ttl: u32 },
    NS { domain: Seq<u8>, host: Seq<u8>, ttl: u32 },
    CNAME { domain: Seq<u8>, host: Seq<u8>, ttl: u32 },
    MX { domain: Seq<u8>, priority: u16, host: Seq<u8>, ttl: u32 },
    AAAA { domain: Seq<u8>, addr: Seq<u8>, ttl: u32 },
}

impl View for DnsRecord {
    type V = RecordV;

    open spec fn view(&self) -> RecordV {
        match *self {
            DnsRecord::UNKNOWN { domain, qtype, data_len, ttl } => RecordV::UNKNOWN {
                domain: domain@,
                qtype,
                data_len,
                ttl,
            },
            DnsRecord::A { domain, addr, ttl } => RecordV::A { domain: domain@, addr: addr@, ttl },
            DnsRecord::NS { domain, host, ttl } => RecordV::NS {
                domain: domain@,
                host: host@,
                ttl,
            },
            DnsRecord::CNAME { domain, host, ttl } => RecordV::CNAME {
                domain: domain@,
                host: host@,
                ttl,
            },
            DnsRecord::MX { domain, priority, host, ttl } => RecordV::MX {
                domain: domain@,
                priority,
                host: host@,
                ttl,
            },
            DnsRecord::AAAA { domain, addr, ttl } => RecordV::AAAA {
                domain: domain@,
                addr: addr@,
                ttl,
            },
        }
    }
}

/// The record starting at `pos` and the offset right past it.
pub open spec fn parse_record(buf: Seq<u8>, pos: int) -> Result<(RecordV, int), DnsError> {
    match parse_name_at(buf, pos, 0, true) {
        Err(e) => Err(e),
        Ok(domain) => {
            let p1 = name_end(buf, pos);
            if p1 + 2 > 512 {
                Err(DnsError::BufferOverrun)
            } else if p1 + 4 > 512 {
                Err(DnsError::BufferOverrun)
            } else if p1 + 8 > 512 {
                Err(DnsError::BufferOverrun)
            } else if p1 + 10 > 512 {
                Err(DnsError::BufferOverrun)
            } else {
                let qtype_num = u16_be(buf[p1], buf[p1 + 1]);
                let ttl = u32_be(buf[p1 + 4], buf[p1 + 5], buf[p1 + 6], buf[p1 + 7]);
                let data_len = u16_be(buf[p1 + 8], buf[p1 + 9]);
                let p2 = p1 + 10;
                match QueryType::spec_from_num(qtype_num) {
                    QueryType::A => {
                        if p2 + 4 > 512 {
                            Err(DnsError::BufferOverrun)
                        } else {
                            Ok(
                                (
                                    RecordV::A { domain, addr: buf.subrange(p2, p2 + 4), ttl },
                                    p2 + 4,
                                ),
                            )
                        }
                    },
                    QueryType::AAAA => {
                        if p2 + 16 > 512 {
                            Err(DnsError::BufferOverrun)
                        } else {
                            Ok(
                                (
                                    RecordV::AAAA { domain, addr: buf.subrange(p2, p2 + 16), ttl },
                                    p2 + 16,
                                ),
                            )
                        }
                    },
                    QueryType::NS => {
                        match parse_name_at(buf, p2, 0, true) {
                            Err(e) => Err(e),
                            Ok(host) => Ok(
                                (RecordV::NS { domain, host, ttl }, name_end(buf, p2)),
                            ),
                        }
                    },
                    QueryType::CNAME => {
                        match parse_name_at(buf, p2, 0, true) {
                            Err(e) => Err(e),
                            Ok(host) => Ok(
                                (RecordV::CNAME { domain, host, ttl }, name_end(buf, p2)),
                            ),
                        }
                    },
                    QueryType::MX => {
                        if p2 + 2 > 512 {
                            Err(DnsError::BufferOverrun)
                        } else {
                            match parse_name_at(buf, p2 + 2, 0, true) {
                                Err(e) => Err(e),
                                Ok(host) => Ok(
                                    (
                                        RecordV::MX {
                                            domain,
                                            priority: u16_be(buf[p2], buf[p2 + 1]),
                                            host,
                                            ttl,
                                        },
                                        name_end(buf, p2 + 2),
                                    ),
                                ),
                            }
                        }
                    },
                    QueryType::UNKNOWN(_) => Ok(
                        (RecordV::UNKNOWN { domain, qtype: qtype_num, data_len, ttl }, p2
                            + data_len),
                    ),
                }
            }
        },
    }
}

pub open spec fn be16(v: u16) -> Seq<u8> {
    seq![u16_hi(v), u16_lo(v)]
}

pub open spec fn be32(v: u32) -> Seq<u8> {
    seq![u32_octet(v, 0), u32_octet(v, 1), u32_octet(v, 2), u32_octet(v, 3)]
}

/// The wire octets of a record; an `UNKNOWN` record is skipped and emits
/// nothing.
pub open spec fn record_wire(r: RecordV) -> Seq<u8> {
    match r {
        RecordV::UNKNOWN { .. } => Seq::empty(),
        RecordV::A { domain, addr, ttl } => qname_wire(domain) + be16(1) + be16(1) + be32(ttl)
            + be16(4) + addr,
        RecordV::NS { domain, host, ttl } => qname_wire(domain) + be16(2) + be16(1) + be32(ttl)
            + be16(qname_wire(host).len() as u16) + qname_wire(host),
        RecordV::CNAME { domain, host, ttl } => qname_wire(domain) + be16(5) + be16(1) + be32(ttl)
            + be16(qname_wire(host).len() as u16) + qname_wire(host),
        RecordV::MX { domain, priority, host, ttl } => qname_wire(domain) + be16(15) + be16(1)
            + be32(ttl) + be16((qname_wire(host).len() + 2) as u16) + be16(priority) + qname_wire(
            host,
        ),
        RecordV::AAAA { domain, addr, ttl } => qname_wire(domain) + be16(28) + be16(1) + be32(ttl)
            + be16(16) + addr,
    }
}

/// Outcome of encoding a record at `pos`: the offset right past it, or the
/// error the encoder stops with.
pub open spec fn record_enc(r: RecordV, pos: int) -> Result<int, DnsError> {
    match r {
        RecordV::UNKNOWN { .. } => Ok(pos),
        RecordV::A { domain, .. } => match qname_enc(domain, pos) {
            Err(e) => Err(e),
            Ok(p1) => if p1 + 14 <= 512 {
                Ok(p1 + 14)
            } else {
                Err(DnsError::BufferOverrun)
            },
        },
        RecordV::NS { domain, host, .. } => match qname_enc(domain, pos) {
            Err(e) => Err(e),
            Ok(p1) => if p1 + 10 <= 512 {
                qname_enc(host, p1 + 10)
            } else {
                Err(DnsError::BufferOverrun)
            },
        },
        RecordV::CNAME { domain, host, .. } => match qname_enc(domain, pos) {
            Err(e) => Err(e),
            Ok(p1) => if p1 + 10 <= 512 {
                qname_enc(host, p1 + 10)
            } else {
                Err(DnsError::BufferOverrun)
            },
        },
        RecordV::MX { domain, host, .. } => match qname_enc(domain, pos) {
            Err(e) => Err(e),
            Ok(p1) => if p1 + 12 <= 512 {
                qname_enc(host, p1 + 12)
            } else {
                Err(DnsError::BufferOverrun)
            },
        },
        RecordV::AAAA { domain, .. } => match qname_enc(domain, pos) {
            Err(e) => Err(e),
            Ok(p1) => if p1 + 26 <= 512 {
                Ok(p1 + 26)
            } else {
                Err(DnsError::BufferOverrun)
            },
        },
    }
}

impl DnsRecord {
    /// Decodes the record under the buffer's cursor. The payload of a
    /// record of unknown type is skipped, leaving the cursor aligned for
    /// the next record.
    #[verifier::loop_isolation(false)]
    pub fn read(buffer: &mut BytePacketBuffer) -> (r: Result<DnsRecord, DnsError>)
        ensures
            final(buffer).buf@ == old(buffer).buf@,
            match parse_record(old(buffer).buf@, old(buffer).pos as int) {
                Ok((rec, end)) => (r matches Ok(rr) && rr@ == rec) && final(buffer).pos == end,
                Err(e) => r == Err::<DnsRecord, DnsError>(e),
            },
    {
        let mut domain: Vec<u8> = Vec::new();
        buffer.read_qname(&mut domain)?;
        proof {
            match parse_name_at(old(buffer).buf@, old(buffer).pos as int, 0, true) {
                Ok(nm) => {
                    assert(domain@ =~= nm);
                },
                Err(e) => {},
            }
        }

        let qtype_num = buffer.read_u16()?;
        let qtype = QueryType::from_num(qtype_num);
        let _class: u16 = buffer.read_u16()?;
        let ttl = buffer.read_u32()?;
        let data_len = buffer.read_u16()?;

        match qtype {
            QueryType::A => {
                let ghost base = buffer.pos as int;
                let a0 = buffer.read()?;
                let a1 = buffer.read()?;
                let a2 = buffer.read()?;
                let a3 = buffer.read()?;
                let addr = [a0, a1, a2, a3];
                proof {
                    assert(addr@ =~= old(buffer).buf@.subrange(base, base + 4));
                }
                Ok(DnsRecord::A { domain, addr, ttl })
            },
            QueryType::AAAA => {
                let mut addr = [0u8; 16];
                let ghost base = buffer.pos as int;
                let mut k: usize = 0;
                while k < 16
                    invariant
                        k <= 16,
                        buffer.buf@ == old(buffer).buf@,
                        buffer.pos as int == base + k,
                        buffer.pos as int <= 512,
                        forall|j: int| 0 <= j < k ==> addr@[j] == buffer.buf@[base + j],
                    decreases 16 - k,
                {
                    let b = buffer.read()?;
                    addr[k] = b;
                    k = k + 1;
                }
                proof {
                    assert(addr@ =~= old(buffer).buf@.subrange(base, base + 16));
                }
                Ok(DnsRecord::AAAA { domain, addr, ttl })
            },
            QueryType::NS => {
                let ghost base = buffer.pos as int;
                let mut host: Vec<u8> = Vec::new();
                buffer.read_qname(&mut host)?;
                proof {
                    match parse_name_at(old(buffer).buf@, base, 0, true) {
                        Ok(nm) => {
                            assert(host@ =~= nm);
                        },
                        Err(e) => {},
                    }
                }
                Ok(DnsRecord::NS { domain, host, ttl })
            },
            QueryType::CNAME => {
                let ghost base = buffer.pos as int;
                let mut host: Vec<u8> = Vec::new();
                buffer.read_qname(&mut host)?;
                proof {
                    match parse_name_at(old(buffer).buf@, base, 0, true) {
                        Ok(nm) => {
                            assert(host@ =~= nm);
                        },
                        Err(e) => {},
                    }
                }
                Ok(DnsRecord::CNAME { domain, host, ttl })
            },
            QueryType::MX => {
                let priority = buffer.read_u16()?;
                let ghost base = buffer.pos as int;
                let mut host: Vec<u8> = Vec::new();
                buffer.read_qname(&mut host)?;
                proof {
                    match parse_name_at(old(buffer).buf@, base, 0, true) {
                        Ok(nm) => {
                            assert(host@ =~= nm);
                        },
                        Err(e) => {},
                    }
                }
                Ok(DnsRecord::MX { domain, priority, host, ttl })
            },
            QueryType::UNKNOWN(_) => {
                buffer.step(data_len as usize)?;
                Ok(DnsRecord::UNKNOWN { domain, qtype: qtype_num, data_len, ttl })
            },
        }
    }

    /// Encodes the record at the buffer's cursor and returns how many
    /// octets it occupied; a record of unknown type is skipped and writes
    /// nothing.
    pub fn write(&self, buffer: &mut BytePacketBuffer) -> (r: Result<usize, DnsError>)
        ensures
            final(buffer).buf@.len() == 512,
            ({
                let w = record_wire(self@);
                match record_enc(self@, old(buffer).pos as int) {
                    Ok(end) => (r matches Ok(n) && n == w.len()) && end == old(buffer).pos
                        + w.len() && final(buffer).pos == end && (old(buffer).pos <= 512
                        ==> final(buffer).buf@ == old(buffer).buf@.take(old(buffer).pos as int) + w
                        + old(buffer).buf@.skip(old(buffer).pos + w.len())) && (old(buffer).pos
                        > 512 ==> *final(buffer) == *old(buffer)),
                    Err(e) => r == Err::<usize, DnsError>(e),
                }
            }),
    {
        match self {
            DnsRecord::A { domain, addr, ttl } => DnsRecord::write_a(domain, addr, *ttl, buffer),
            DnsRecord::AAAA { domain, addr, ttl } => DnsRecord::write_aaaa(
                domain,
                addr,
                *ttl,
                buffer,
            ),
            DnsRecord::NS { domain, host, ttl } => DnsRecord::write_ns(domain, host, *ttl, buffer),
            DnsRecord::CNAME { domain, host, ttl } => DnsRecord::write_cname(
                domain,
                host,
                *ttl,
                buffer,
            ),
            DnsRecord::MX { domain, priority, host, ttl } => DnsRecord::write_mx(
                domain,
                *priority,
                host,
                *ttl,
                buffer,
            ),
            DnsRecord::UNKNOWN { .. } => {
                proof {
                    if old(buffer).pos <= 512 {
                        assert(buffer.buf@ =~= old(buffer).buf@.take(old(buffer).pos as int)
                            + record_wire(self@) + old(buffer).buf@.skip(old(buffer).pos as int));
                    }
                }
                Ok(0)
            },
        }
    }

    #[verifier::loop_isolation(false)]
    #[verifier::rlimit(100)]
    #[verifier::spinoff_prover]
    fn write_a(domain: &Vec<u8>, addr: &[u8; 4], ttl: u32, buffer: &mut BytePacketBuffer) -> (r: Result<usize, DnsError>)
        ensures
            final(buffer).buf@.len() == 512,
            ({
                let w = record_wire((RecordV::A { domain: domain@, addr: addr@, ttl }));
                match record_enc((RecordV::A { domain: domain@, addr: addr@, ttl }), old(buffer).pos as int) {
                    Ok(end) => (r matches Ok(n) && n == w.len()) && end == old(buffer).pos
                        + w.len() && final(buffer).pos == end && (old(buffer).pos <= 512
                        ==> final(buffer).buf@ == old(buffer).buf@.take(old(buffer).pos as int) + w
                        + old(buffer).buf@.skip(old(buffer).pos + w.len())) && (old(buffer).pos
                        > 512 ==> *final(buffer) == *old(buffer)),
                    Err(e) => r == Err::<usize, DnsError>(e),
                }
            }),
    {
        let start_pos = buffer.pos();

        buffer.write_qname(domain.as_slice())?;
        let ghost d_buf = buffer.buf@;
        let ghost p1 = buffer.pos as int;
        buffer.write_u16(QueryType::A.to_num())?;
        buffer.write_u16(1)?;
        buffer.write_u32(ttl)?;
        buffer.write_u16(4)?;
        buffer.write_u8(addr[0])?;
        buffer.write_u8(addr[1])?;
        buffer.write_u8(addr[2])?;
        buffer.write_u8(addr[3])?;
        proof {
            let pos0 = old(buffer).pos as int;
            let orig = old(buffer).buf@;
            let w = record_wire((RecordV::A { domain: domain@, addr: addr@, ttl }));
            let nw = qname_wire(domain@);
            assert(orig.take(pos0).len() == pos0);
            assert forall|j: int| 0 <= j < nw.len() implies d_buf[pos0 + j] == nw[j] by {
                assert((orig.take(pos0) + nw + orig.skip(pos0 + nw.len()))[pos0 + j]
                    == nw[j]);
            }
            assert(w =~= nw + be16(1) + be16(1) + be32(ttl) + be16(4) + addr@);
            assert(buffer.buf@ =~= orig.take(pos0) + w + orig.skip(pos0 + w.len()));
        }
        Ok(buffer.pos() - start_pos)
    
    }

    #[verifier::loop_isolation(false)]
    #[verifier::rlimit(100)]
    #[verifier::spinoff_prover]
    fn write_aaaa(domain: &Vec<u8>, addr: &[u8; 16], ttl: u32, buffer: &mut BytePacketBuffer) -> (r: Result<usize, DnsError>)
        ensures
            final(buffer).buf@.len() == 512,
            ({
                let w = record_wire((RecordV::AAAA { domain: domain@, addr: addr@, ttl }));
                match record_enc((RecordV::AAAA { domain: domain@, addr: addr@, ttl }), old(buffer).pos as int) {
                    Ok(end) => (r matches Ok(n) && n == w.len()) && end == old(buffer).pos
                        + w.len() && final(buffer).pos == end && (old(buffer).pos <= 512
                        ==> final(buffer).buf@ == old(buffer).buf@.take(old(buffer).pos as int) + w
                        + old(buffer).buf@.skip(old(buffer).pos + w.len())) && (old(buffer).pos
                        > 512 ==> *final(buffer) == *old(buffer)),
                    Err(e) => r == Err::<usize, DnsError>(e),
                }
            }),
    {
        let start_pos = buffer.pos();

        buffer.write_qname(domain.as_slice())?;
        let ghost d_buf = buffer.buf@;
        let ghost p1 = buffer.pos as int;
        buffer.write_u16(QueryType::AAAA.to_num())?;
        buffer.write_u16(1)?;
        buffer.write_u32(ttl)?;
        buffer.write_u16(16)?;
        buffer.write_u8(addr[0])?;
        buffer.write_u8(addr[1])?;
        buffer.write_u8(addr[2])?;
        buffer.write_u8(addr[3])?;
        buffer.write_u8(addr[4])?;
        buffer.write_u8(addr[5])?;
        buffer.write_u8(addr[6])?;
        buffer.write_u8(addr[7])?;
        buffer.write_u8(addr[8])?;
        buffer.write_u8(addr[9])?;
        buffer.write_u8(addr[10])?;
        buffer.write_u8(addr[11])?;
        buffer.write_u8(addr[12])?;
        buffer.write_u8(addr[13])?;
        buffer.write_u8(addr[14])?;
        buffer.write_u8(addr[15])?;
        proof {
            let pos0 = old(buffer).pos as int;
            let orig = old(buffer).buf@;
            let w = record_wire((RecordV::AAAA { domain: domain@, addr: addr@, ttl }));
            let nw = qname_wire(domain@);
            assert(orig.take(pos0).len() == pos0);
            assert forall|j: int| 0 <= j < nw.len() implies d_buf[pos0 + j] == nw[j] by {
                assert((orig.take(pos0) + nw + orig.skip(pos0 + nw.len()))[pos0 + j]
                    == nw[j]);
            }
            assert(w =~= nw + be16(28) + be16(1) + be32(ttl) + be16(16) + addr@);
            assert(buffer.buf@ =~= orig.take(pos0) + w + orig.skip(pos0 + w.len()));
        }
        Ok(buffer.pos() - start_pos)
    }

    #[verifier::loop_isolation(false)]
    #[verifier::rlimit(100)]
    #[verifier::spinoff_prover]
    fn write_ns(domain: &Vec<u8>, host: &Vec<u8>, ttl: u32, buffer: &mut BytePacketBuffer) -> (r: Result<usize, DnsError>)
        ensures
            final(buffer).buf@.len() == 512,
            ({
                let w = record_wire((RecordV::NS { domain: domain@, host: host@, ttl }));
                match record_enc((RecordV::NS { domain: domain@, host: host@, ttl }), old(buffer).pos as int) {
                    Ok(end) => (r matches Ok(n) && n == w.len()) && end == old(buffer).pos
                        + w.len() && final(buffer).pos == end && (old(buffer).pos <= 512
                        ==> final(buffer).buf@ == old(buffer).buf@.take(old(buffer).pos as int) + w
                        + old(buffer).buf@.skip(old(buffer).pos + w.len())) && (old(buffer).pos
                        > 512 ==> *final(buffer) == *old(buffer)),
                    Err(e) => r == Err::<usize, DnsError>(e),
                }
            }),
    {
        let start_pos = buffer.pos();

        buffer.write_qname(domain.as_slice())?;
        let ghost d_buf = buffer.buf@;
        let ghost p1 = buffer.pos as int;
        buffer.write_u16(QueryType::NS.to_num())?;
        buffer.write_u16(1)?;
        buffer.write_u32(ttl)?;
        let pos = buffer.pos();
        buffer.write_u16(0)?;
        let ghost ph_buf = buffer.buf@;
        buffer.write_qname(host.as_slice())?;
        let ghost h_buf = buffer.buf@;
        let size = buffer.pos() - (pos + 2);
        buffer.set_u16(pos, size as u16)?;
        proof {
            let pos0 = old(buffer).pos as int;
            let orig = old(buffer).buf@;
            let w = record_wire((RecordV::NS { domain: domain@, host: host@, ttl }));
            let nw = qname_wire(domain@);
            let hw = qname_wire(host@);
            assert(orig.take(pos0).len() == pos0);
            assert forall|j: int| 0 <= j < nw.len() implies d_buf[pos0 + j] == nw[j] by {
                assert((orig.take(pos0) + nw + orig.skip(pos0 + nw.len()))[pos0 + j]
                    == nw[j]);
            }
            assert(ph_buf.take(p1 + 10).len() == p1 + 10);
            assert forall|j: int| 0 <= j < hw.len() implies h_buf[p1 + 10 + j]
                == hw[j] by {
                assert((ph_buf.take(p1 + 10) + hw + ph_buf.skip(p1 + 10 + hw.len()))[p1
                    + 10 + j] == hw[j]);
            }
            assert(size == hw.len());
            assert(w =~= nw + be16(2) + be16(1) + be32(ttl) + be16(hw.len() as u16) + hw);
            assert(buffer.buf@ =~= orig.take(pos0) + w + orig.skip(pos0 + w.len()));
        }
        Ok(buffer.pos() - start_pos)
    
    }

    #[verifier::loop_isolation(false)]
    #[verifier::rlimit(100)]
    #[verifier::spinoff_prover]
    fn write_cname(domain: &Vec<u8>, host: &Vec<u8>, ttl: u32, buffer: &mut BytePacketBuffer) -> (r: Result<usize, DnsError>)
        ensures
            final(buffer).buf@.len() == 512,
            ({
                let w = record_wire((RecordV::CNAME { domain: domain@, host: host@, ttl }));
                match record_enc((RecordV::CNAME { domain: domain@, host: host@, ttl }), old(buffer).pos as int) {
                    Ok(end) => (r matches Ok(n) && n == w.len()) && end == old(buffer).pos
                        + w.len() && final(buffer).pos == end && (old(buffer).pos <= 512
                        ==> final(buffer).buf@ == old(buffer).buf@.take(old(buffer).pos as int) + w
                        + old(buffer).buf@.skip(old(buffer).pos + w.len())) && (old(buffer).pos
                        > 512 ==> *final(buffer) == *old(buffer)),
                    Err(e) => r == Err::<usize, DnsError>(e),
                }
            }),
    {
        let start_pos = buffer.pos();

        buffer.write_qname(domain.as_slice())?;
        let ghost d_buf = buffer.buf@;
        let ghost p1 = buffer.pos as int;
        buffer.write_u16(QueryType::CNAME.to_num())?;
        buffer.write_u16(1)?;
        buffer.write_u32(ttl)?;
        let pos = buffer.pos();
        buffer.write_u16(0)?;
        let ghost ph_buf = buffer.buf@;
        buffer.write_qname(host.as_slice())?;
        let ghost h_buf = buffer.buf@;
        let size = buffer.pos() - (pos + 2);
        buffer.set_u16(pos, size as u16)?;
        proof {
            let pos0 = old(buffer).pos as int;
            let orig = old(buffer).buf@;
            let w = record_wire((RecordV::CNAME { domain: domain@, host: host@, ttl }));
            let nw = qname_wire(domain@);
            let hw = qname_wire(host@);
            assert(orig.take(pos0).len() == pos0);
            assert forall|j: int| 0 <= j < nw.len() implies d_buf[pos0 + j] == nw[j] by {
                assert((orig.take(pos0) + nw + orig.skip(pos0 + nw.len()))[pos0 + j]
                    == nw[j]);
            }
            assert(ph_buf.take(p1 + 10).len() == p1 + 10);
            assert forall|j: int| 0 <= j < hw.len() implies h_buf[p1 + 10 + j]
                == hw[j] by {
                assert((ph_buf.take(p1 + 10) + hw + ph_buf.skip(p1 + 10 + hw.len()))[p1
                    + 10 + j] == hw[j]);
            }
            assert(size == hw.len());
            assert(w =~= nw + be16(5) + be16(1) + be32(ttl) + be16(hw.len() as u16) + hw);
            assert(buffer.buf@ =~= orig.take(pos0) + w + orig.skip(pos0 + w.len()));
        }
        Ok(buffer.pos() - start_pos)
    
    }

    #[verifier::loop_isolation(false)]
    #[verifier::rlimit(100)]
    #[verifier::spinoff_prover]
    fn write_mx(domain: &Vec<u8>, priority: u16, host: &Vec<u8>, ttl: u32, buffer: &mut BytePacketBuffer) -> (r: Result<usize, DnsError>)
        ensures
            final(buffer).buf@.len() == 512,
            ({
                let w = record_wire((RecordV::MX { domain: domain@, priority, host: host@, ttl }));
                match record_enc((RecordV::MX { domain: domain@, priority, host: host@, ttl }), old(buffer).pos as int) {
                    Ok(end) => (r matches Ok(n) && n == w.len()) && end == old(buffer).pos
                        + w.len() && final(buffer).pos == end && (old(buffer).pos <= 512
                        ==> final(buffer).buf@ == old(buffer).buf@.take(old(buffer).pos as int) + w
                        + old(buffer).buf@.skip(old(buffer).pos + w.len())) && (old(buffer).pos
                        > 512 ==> *final(buffer) == *old(buffer)),
                    Err(e) => r == Err::<usize, DnsError>(e),
                }
            }),
    {
        let start_pos = buffer.pos();

        buffer.write_qname(domain.as_slice())?;
        let ghost d_buf = buffer.buf@;
        let ghost p1 = buffer.pos as int;
        buffer.write_u16(QueryType::MX.to_num())?;
        buffer.write_u16(1)?;
        buffer.write_u32(ttl)?;
        let pos = buffer.pos();
        buffer.write_u16(0)?;
        buffer.write_u16(priority)?;
        let ghost ph_buf = buffer.buf@;
        buffer.write_qname(host.as_slice())?;
        let ghost h_buf = buffer.buf@;
        let size = buffer.pos() - (pos + 2);
        buffer.set_u16(pos, size as u16)?;
        proof {
            let pos0 = old(buffer).pos as int;
            let orig = old(buffer).buf@;
            let w = record_wire((RecordV::MX { domain: domain@, priority, host: host@, ttl }));
            let nw = qname_wire(domain@);
            let hw = qname_wire(host@);
            assert(orig.take(pos0).len() == pos0);
            assert forall|j: int| 0 <= j < nw.len() implies d_buf[pos0 + j] == nw[j] by {
                assert((orig.take(pos0) + nw + orig.skip(pos0 + nw.len()))[pos0 + j]
                    == nw[j]);
            }
            assert(ph_buf.take(p1 + 12).len() == p1 + 12);
            assert forall|j: int| 0 <= j < hw.len() implies h_buf[p1 + 12 + j]
                == hw[j] by {
                assert((ph_buf.take(p1 + 12) + hw + ph_buf.skip(p1 + 12 + hw.len()))[p1
                    + 12 + j] == hw[j]);
            }
            assert(size == hw.len() + 2);
            assert(w =~= nw + be16(15) + be16(1) + be32(ttl) + be16(
                (hw.len() + 2) as u16,
            ) + be16(priority) + hw);
            assert(buffer.buf@ =~= orig.take(pos0) + w + orig.skip(pos0 + w.len()));
        }
        Ok(buffer.pos() - start_pos)
    
    }
}

/// A record the encoder can reproduce exactly: canonical names, an address
/// of the right width, and a type that is not skipped on encode.
pub open spec fn record_canonical(rec: RecordV) -> bool {
    match rec {
        RecordV::UNKNOWN { .. } => false,
        RecordV::A { domain, addr, .. } => crate::buffer::name_wf(domain) && addr.len() == 4,
        RecordV::AAAA { domain, addr, .. } => crate::buffer::name_wf(domain) && addr.len() == 16,
        RecordV::NS { domain, host, .. } => crate::buffer::name_wf(domain)
            && crate::buffer::name_wf(host),
        RecordV::CNAME { domain, host, .. } => crate::buffer::name_wf(domain)
            && crate::buffer::name_wf(host),
        RecordV::MX { domain, host, .. } => crate::buffer::name_wf(domain)
            && crate::buffer::name_wf(host),
    }
}

/// Decoding the octets the record encoder wrote yields the record back,
/// for canonical records.
#[verifier::rlimit(100)]
#[verifier::spinoff_prover]
pub proof fn lemma_record_round_trip(buf: Seq<u8>, rec: RecordV, pos: int)
    requires
        record_canonical(rec),
        buf.len() == 512,
        0 <= pos,
        pos + record_wire(rec).len() <= 512,
        buf.subrange(pos, pos + record_wire(rec).len()) == record_wire(rec),
    ensures
        parse_record(buf, pos) == Ok::<(RecordV, int), DnsError>(
            (rec, pos + record_wire(rec).len()),
        ),
{
    let w = record_wire(rec);
    assert forall|j: int| 0 <= j < w.len() implies buf[pos + j] == w[j] by {
        assert(buf.subrange(pos, pos + w.len())[j] == buf[pos + j]);
    }
    assert((1u16 >> 8) as u8 == 0 && (1u16 & 0xFF) as u8 == 1 && (2u16 >> 8) as u8 == 0 && (2u16
        & 0xFF) as u8 == 2 && (5u16 >> 8) as u8 == 0 && (5u16 & 0xFF) as u8 == 5 && (15u16 >> 8)
        as u8 == 0 && (15u16 & 0xFF) as u8 == 15 && (28u16 >> 8) as u8 == 0 && (28u16 & 0xFF) as u8
        == 28 && (4u16 >> 8) as u8 == 0 && (4u16 & 0xFF) as u8 == 4 && (16u16 >> 8) as u8 == 0 && (
    16u16 & 0xFF) as u8 == 16) by (bit_vector);
    match rec {
        RecordV::UNKNOWN { .. } => {},
        RecordV::A { domain, addr, ttl } => {
            let nw = qname_wire(domain);
            let tail = be16(1) + be16(1) + be32(ttl) + be16(4) + addr;
            assert(w =~= nw + tail);
            assert(buf.subrange(pos, pos + nw.len()) =~= nw);
            crate::buffer::lemma_qname_round_trip(buf, domain, pos, 0, true);
            let p1 = pos + nw.len();
            assert forall|k: int| 0 <= k < tail.len() implies buf[p1 + k] == tail[k] by {
                assert(w[nw.len() as int + k] == tail[k]);
                assert(buf[pos + (nw.len() as int + k)] == w[nw.len() as int + k]);
            }
            assert(tail[0] == u16_hi(1) && tail[1] == u16_lo(1) && tail[4] == u32_octet(ttl, 0)
                && tail[5] == u32_octet(ttl, 1) && tail[6] == u32_octet(ttl, 2) && tail[7]
                == u32_octet(ttl, 3));
            let v = ttl;
            assert((((((v >> 24) & 0xFF) as u8) as u32) * 0x1000000 + ((((v >> 16) & 0xFF) as u8)
                as u32) * 0x10000 + ((((v >> 8) & 0xFF) as u8) as u32) * 0x100 + ((((v >> 0)
                & 0xFF) as u8) as u32)) as u32 == v) by (bit_vector);
            let head = be16(1) + be16(1) + be32(ttl) + be16(4);
            assert(head.len() == 10);
            assert forall|j: int| 0 <= j < addr.len() implies tail[10 + j] == addr[j] by {
                assert((head + addr)[10 + j] == addr[j]);
            }
            assert(buf.subrange(p1 + 10, p1 + 14) =~= addr);
        },
        RecordV::AAAA { domain, addr, ttl } => {
            let nw = qname_wire(domain);
            let tail = be16(28) + be16(1) + be32(ttl) + be16(16) + addr;
            assert(w =~= nw + tail);
            assert(buf.subrange(pos, pos + nw.len()) =~= nw);
            crate::buffer::lemma_qname_round_trip(buf, domain, pos, 0, true);
            let p1 = pos + nw.len();
            assert forall|k: int| 0 <= k < tail.len() implies buf[p1 + k] == tail[k] by {
                assert(w[nw.len() as int + k] == tail[k]);
                assert(buf[pos + (nw.len() as int + k)] == w[nw.len() as int + k]);
            }
            assert(tail[0] == u16_hi(28) && tail[1] == u16_lo(28) && tail[4] == u32_octet(ttl, 0)
                && tail[5] == u32_octet(ttl, 1) && tail[6] == u32_octet(ttl, 2) && tail[7]
                == u32_octet(ttl, 3));
            let v = ttl;
            assert((((((v >> 24) & 0xFF) as u8) as u32) * 0x1000000 + ((((v >> 16) & 0xFF) as u8)
                as u32) * 0x10000 + ((((v >> 8) & 0xFF) as u8) as u32) * 0x100 + ((((v >> 0)
                & 0xFF) as u8) as u32)) as u32 == v) by (bit_vector);
            let head = be16(28) + be16(1) + be32(ttl) + be16(16);
            assert(head.len() == 10);
            assert forall|j: int| 0 <= j < addr.len() implies tail[10 + j] == addr[j] by {
                assert((head + addr)[10 + j] == addr[j]);
            }
            assert(buf.subrange(p1 + 10, p1 + 26) =~= addr);
        },
        RecordV::NS { domain, host, ttl } => {
            let nw = qname_wire(domain);
            let hw = qname_wire(host);
            let tail = be16(2) + be16(1) + be32(ttl) + be16(hw.len() as u16) + hw;
            let head = be16(2) + be16(1) + be32(ttl) + be16(hw.len() as u16);
            assert(head.len() == 10);
            assert(w =~= nw + tail);
            assert(buf.subrange(pos, pos + nw.len()) =~= nw);
            crate::buffer::lemma_qname_round_trip(buf, domain, pos, 0, true);
            let p1 = pos + nw.len();
            assert forall|k: int| 0 <= k < tail.len() implies buf[p1 + k] == tail[k] by {
                assert(w[nw.len() as int + k] == tail[k]);
                assert(buf[pos + (nw.len() as int + k)] == w[nw.len() as int + k]);
            }
            let v = ttl;
            assert((((((v >> 24) & 0xFF) as u8) as u32) * 0x1000000 + ((((v >> 16) & 0xFF) as u8)
                as u32) * 0x10000 + ((((v >> 8) & 0xFF) as u8) as u32) * 0x100 + ((((v >> 0)
                & 0xFF) as u8) as u32)) as u32 == v) by (bit_vector);
            assert(tail[0] == u16_hi(2) && tail[1] == u16_lo(2) && tail[4] == u32_octet(ttl, 0)
                && tail[5] == u32_octet(ttl, 1) && tail[6] == u32_octet(ttl, 2) && tail[7]
                == u32_octet(ttl, 3));
            assert forall|j: int| 0 <= j < hw.len() implies tail[10 + j] == hw[j] by {
                assert((head + hw)[10 + j] == hw[j]);
            }
            assert(buf.subrange(p1 + 10, p1 + 10 + hw.len()) =~= hw);
            crate::buffer::lemma_qname_round_trip(buf, host, p1 + 10, 0, true);
        },
        RecordV::CNAME { domain, host, ttl } => {
            let nw = qname_wire(domain);
            let hw = qname_wire(host);
            let tail = be16(5) + be16(1) + be32(ttl) + be16(hw.len() as u16) + hw;
            let head = be16(5) + be16(1) + be32(ttl) + be16(hw.len() as u16);
            assert(head.len() == 10);
            assert(w =~= nw + tail);
            assert(buf.subrange(pos, pos + nw.len()) =~= nw);
            crate::buffer::lemma_qname_round_trip(buf, domain, pos, 0, true);
            let p1 = pos + nw.len();
            assert forall|k: int| 0 <= k < tail.len() implies buf[p1 + k] == tail[k] by {
                assert(w[nw.len() as int + k] == tail[k]);
                assert(buf[pos + (nw.len() as int + k)] == w[nw.len() as int + k]);
            }
            let v = ttl;
            assert((((((v >> 24) & 0xFF) as u8) as u32) * 0x1000000 + ((((v >> 16) & 0xFF) as u8)
                as u32) * 0x10000 + ((((v >> 8) & 0xFF) as u8) as u32) * 0x100 + ((((v >> 0)
                & 0xFF) as u8) as u32)) as u32 == v) by (bit_vector);
            assert(tail[0] == u16_hi(5) && tail[1] == u16_lo(5) && tail[4] == u32_octet(ttl, 0)
                && tail[5] == u32_octet(ttl, 1) && tail[6] == u32_octet(ttl, 2) && tail[7]
                == u32_octet(ttl, 3));
            assert forall|j: int| 0 <= j < hw.len() implies tail[10 + j] == hw[j] by {
                assert((head + hw)[10 + j] == hw[j]);
            }
            assert(buf.subrange(p1 + 10, p1 + 10 + hw.len()) =~= hw);
            crate::buffer::lemma_qname_round_trip(buf, host, p1 + 10, 0, true);
        },
        RecordV::MX { domain, priority, host, ttl } => {
            let nw = qname_wire(domain);
            let hw = qname_wire(host);
            let tail = be16(15) + be16(1) + be32(ttl) + be16((hw.len() + 2) as u16) + be16(priority)
                + hw;
            let head = be16(15) + be16(1) + be32(ttl) + be16((hw.len() + 2) as u16) + be16(
                priority,
            );
            assert(head.len() == 12);
            assert(w =~= nw + tail);
            assert(buf.subrange(pos, pos + nw.len()) =~= nw);
            crate::buffer::lemma_qname_round_trip(buf, domain, pos, 0, true);
            let p1 = pos + nw.len();
            assert forall|k: int| 0 <= k < tail.len() implies buf[p1 + k] == tail[k] by {
                assert(w[nw.len() as int + k] == tail[k]);
                assert(buf[pos + (nw.len() as int + k)] == w[nw.len() as int + k]);
            }
            let v = ttl;
            assert((((((v >> 24) & 0xFF) as u8) as u32) * 0x1000000 + ((((v >> 16) & 0xFF) as u8)
                as u32) * 0x10000 + ((((v >> 8) & 0xFF) as u8) as u32) * 0x100 + ((((v >> 0)
                & 0xFF) as u8) as u32)) as u32 == v) by (bit_vector);
            let pv = priority;
            assert(((((pv >> 8) as u8) as u16) * 256 + (((pv & 0xFF) as u8) as u16)) as u16 == pv)
                by (bit_vector);
            assert(tail[0] == u16_hi(15) && tail[1] == u16_lo(15) && tail[4] == u32_octet(ttl, 0)
                && tail[5] == u32_octet(ttl, 1) && tail[6] == u32_octet(ttl, 2) && tail[7]
                == u32_octet(ttl, 3) && tail[10] == u16_hi(priority) && tail[11] == u16_lo(
                priority,
            ));
            assert forall|j: int| 0 <= j < hw.len() implies tail[12 + j] == hw[j] by {
                assert((head + hw)[12 + j] == hw[j]);
            }
            assert(buf.subrange(p1 + 12, p1 + 12 + hw.len()) =~= hw);
            crate::buffer::lemma_qname_round_trip(buf, host, p1 + 12, 0, true);
        },
    }
}

} // verus!
