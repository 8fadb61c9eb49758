use vstd::prelude::*;

use crate::buffer::BytePacketBuffer;
use crate::buffer::u16_be;
use crate::buffer::u16_hi;
use crate::buffer::u16_lo;
use crate::protocol::DnsError;
use crate::protocol::ResultCode;

verus! {

/// The 12-octet message header: transaction id, the bit-packed flags, and
/// the four section counts.
#[derive(Clone, Copy, Debug, PartialEq, Eq, Structural)]
pub struct DnsHeader {
    pub id: u16,
    pub recursion_desired: bool,
    pub truncated_message: bool,
    pub authoritative_answer: bool,
    pub opcode: u8,
    pub response: bool,
    pub rescode: ResultCode,
    pub checking_disabled: bool,
    pub authed_data: bool,
    pub z: bool,
    pub recursion_available: bool,
    pub questions: u16,
    pub answers: u16,
    pub authoritative_entries: u16,
    pub resource_entries: u16,
}

pub open spec fn b2u8(b: bool) -> u8 {
    if b {
        1
    } else {
        0
    }
}

/// First flags octet: response bit, opcode, and the aa/tc/rd bits.
pub open spec fn flags_a(h: DnsHeader) -> u8 {
    b2u8(h.recursion_desired) | (b2u8(h.truncated_message) << 1) | (b2u8(h.authoritative_answer)
        << 2) | (h.opcode << 3) | (b2u8(h.response) << 7)
}

/// Second flags octet: ra bit, the three reserved bits, and the response
/// code.
pub open spec fn flags_b(h: DnsHeader) -> u8 {
    h.rescode.spec_to_num() | (b2u8(h.checking_disabled) << 4) | (b2u8(h.authed_data) << 5) | (b2u8(
        h.z,
    ) << 6) | (b2u8(h.recursion_available) << 7)
}

/// The 12 octets a header occupies on the wire.
pub open spec fn header_wire(h: DnsHeader) -> Seq<u8> {
    seq![
        u16_hi(h.id),
        u16_lo(h.id),
        flags_a(h),
        flags_b(h),
        u16_hi(h.questions),
        u16_lo(h.questions),
        u16_hi(h.answers),
        u16_lo(h.answers),
        u16_hi(h.authoritative_entries),
        u16_lo(h.authoritative_entries),
        u16_hi(h.resource_entries),
        u16_lo(h.resource_entries),
    ]
}

/// The header described by the 12 octets at `pos`; meaningful when
/// `pos + 12 <= 512`.
pub open spec fn parse_header(buf: Seq<u8>, pos: int) -> DnsHeader {
    let a = buf[pos + 2];
    let b = buf[pos + 3];
    DnsHeader {
        id: u16_be(buf[pos], buf[pos + 1]),
        recursion_desired: (a & 1) > 0,
        truncated_message: (a & 2) > 0,
        authoritative_answer: (a & 4) > 0,
        opcode: (a >> 3) & 0x0F,
        response: (a & 0x80) > 0,
        rescode: ResultCode::spec_from_num(b & 0x0F),
        checking_disabled: (b & 0x10) > 0,
        authed_data: (b & 0x20) > 0,
        z: (b & 0x40) > 0,
        recursion_available: (b & 0x80) > 0,
        questions: u16_be(buf[pos + 4], buf[pos + 5]),
        answers: u16_be(buf[pos + 6], buf[pos + 7]),
        authoritative_entries: u16_be(buf[pos + 8], buf[pos + 9]),
        resource_entries: u16_be(buf[pos + 10], buf[pos + 11]),
    }
}

impl DnsHeader {
    /// The all-clear header of a fresh packet.
    pub open spec fn spec_new() -> DnsHeader {
        DnsHeader {
            id: 0,
            recursion_desired: false,
            truncated_message: false,
            authoritative_answer: false,
            opcode: 0,
            response: false,
            rescode: ResultCode::NOERROR,
            checking_disabled: false,
            authed_data: false,
            z: false,
            recursion_available: false,
            questions: 0,
            answers: 0,
            authoritative_entries: 0,
            resource_entries: 0,
        }
    }

    pub fn new() -> (r: DnsHeader)
        ensures
            r == DnsHeader::spec_new(),
    {
        DnsHeader {
            id: 0,
            recursion_desired: false,
            truncated_message: false,
            authoritative_answer: false,
            opcode: 0,
            response: false,
            rescode: ResultCode::NOERROR,
            checking_disabled: false,
            authed_data: false,
            z: false,
            recursion_available: false,
            questions: 0,
            answers: 0,
            authoritative_entries: 0,
            resource_entries: 0,
        }
    }

    /// Decodes the 12 header octets under the buffer's cursor into `self`.
    pub fn read(&mut self, buffer: &mut BytePacketBuffer) -> (r: Result<(), DnsError>)
        ensures
            final(buffer).buf@ == old(buffer).buf@,
            old(buffer).pos + 12 <= 512 ==> r == Ok::<(), DnsError>(()) && *final(self)
                == parse_header(old(buffer).buf@, old(buffer).pos as int) && final(buffer).pos
                == old(buffer).pos + 12,
            old(buffer).pos + 12 > 512 ==> r == Err::<(), DnsError>(DnsError::BufferOverrun),
    {
        let id = buffer.read_u16()?;
        self.id = id;

        let flags = buffer.read_u16()?;
        let a = (flags >> 8) as u8;
        let b = (flags & 0xFF) as u8;
        proof {
            if old(buffer).pos + 4 <= 512 {
                let x = old(buffer).buf@[old(buffer).pos + 2];
                let y = old(buffer).buf@[old(buffer).pos + 3];
                assert(((((x as u16) * 256 + (y as u16)) as u16) >> 8) as u8 == x && ((((
                x as u16) * 256 + (y as u16)) as u16) & 0xFF) as u8 == y) by (bit_vector);
            }
        }

        self.recursion_desired = (a & 1) > 0;
        self.truncated_message = (a & 2) > 0;
        self.authoritative_answer = (a & 4) > 0;
        self.opcode = (a >> 3) & 0x0F;
        self.response = (a & 0x80) > 0;

        self.rescode = ResultCode::from_num(b & 0x0F);
        self.checking_disabled = (b & 0x10) > 0;
        self.authed_data = (b & 0x20) > 0;
        self.z = (b & 0x40) > 0;
        self.recursion_available = (b & 0x80) > 0;

        self.questions = buffer.read_u16()?;
        self.answers = buffer.read_u16()?;
        self.authoritative_entries = buffer.read_u16()?;
        self.resource_entries = buffer.read_u16()?;

        Ok(())
    }

    /// Encodes the header as its 12 wire octets at the buffer's cursor.
    #[verifier::rlimit(100)]
    pub fn write(&self, buffer: &mut BytePacketBuffer) -> (r: Result<(), DnsError>)
        ensures
            final(buffer).buf@.len() == 512,
            old(buffer).pos + 12 <= 512 ==> r == Ok::<(), DnsError>(()) && final(buffer).pos
                == old(buffer).pos + 12 && final(buffer).buf@ == old(buffer).buf@.take(
                old(buffer).pos as int,
            ) + header_wire(*self) + old(buffer).buf@.skip(old(buffer).pos + 12),
            old(buffer).pos + 12 > 512 ==> r == Err::<(), DnsError>(DnsError::BufferOverrun),
    {
        buffer.write_u16(self.id)?;

        let a = (if self.recursion_desired {
            1u8
        } else {
            0u8
        }) | ((if self.truncated_message {
            1u8
        } else {
            0u8
        }) << 1) | ((if self.authoritative_answer {
            1u8
        } else {
            0u8
        }) << 2) | (self.opcode << 3) | ((if self.response {
            1u8
        } else {
            0u8
        }) << 7);
        buffer.write_u8(a)?;

        let b = self.rescode.to_num() | ((if self.checking_disabled {
            1u8
        } else {
            0u8
        }) << 4) | ((if self.authed_data {
            1u8
        } else {
            0u8
        }) << 5) | ((if self.z {
            1u8
        } else {
            0u8
        }) << 6) | ((if self.recursion_available {
            1u8
        } else {
            0u8
        }) << 7);
        buffer.write_u8(b)?;

        buffer.write_u16(self.questions)?;
        buffer.write_u16(self.answers)?;
        buffer.write_u16(self.authoritative_entries)?;
        buffer.write_u16(self.resource_entries)?;

        proof {
            if old(buffer).pos + 12 <= 512 {
                assert(buffer.buf@ =~= old(buffer).buf@.take(old(buffer).pos as int)
                    + header_wire(*self) + old(buffer).buf@.skip(old(buffer).pos + 12));
            }
        }
        Ok(())
    }
}

/// Decoding the twelve octets the header encoder wrote yields the header
/// back, field for field, for any header whose opcode fits its four bits.
pub proof fn lemma_header_round_trip(buf: Seq<u8>, h: DnsHeader, pos: int)
    requires
        h.opcode < 16,
        buf.len() == 512,
        0 <= pos,
        pos + 12 <= 512,
        buf.subrange(pos, pos + 12) == header_wire(h),
    ensures
        parse_header(buf, pos) == h,
{
    assert forall|j: int| 0 <= j < 12 implies buf[pos + j] == header_wire(h)[j] by {
        assert(buf.subrange(pos, pos + 12)[j] == buf[pos + j]);
    }

    let v1 = h.id;
    let v2 = h.questions;
    let v3 = h.answers;
    let v4 = h.authoritative_entries;
    let v5 = h.resource_entries;
    assert(((((v1 >> 8) as u8) as u16) * 256 + (((v1 & 0xFF) as u8) as u16)) as u16 == v1)
        by (bit_vector);
    assert(((((v2 >> 8) as u8) as u16) * 256 + (((v2 & 0xFF) as u8) as u16)) as u16 == v2)
        by (bit_vector);
    assert(((((v3 >> 8) as u8) as u16) * 256 + (((v3 & 0xFF) as u8) as u16)) as u16 == v3)
        by (bit_vector);
    assert(((((v4 >> 8) as u8) as u16) * 256 + (((v4 & 0xFF) as u8) as u16)) as u16 == v4)
        by (bit_vector);
    assert(((((v5 >> 8) as u8) as u16) * 256 + (((v5 & 0xFF) as u8) as u16)) as u16 == v5)
        by (bit_vector);

    let rd = b2u8(h.recursion_desired);
    let tc = b2u8(h.truncated_message);
    let aa = b2u8(h.authoritative_answer);
    let op = h.opcode;
    let rp = b2u8(h.response);
    let fa = rd | (tc << 1) | (aa << 2) | (op << 3) | (rp << 7);
    assert(((fa & 1) > 0) == (rd == 1) && ((fa & 2) > 0) == (tc == 1) && ((fa & 4) > 0) == (aa
        == 1) && ((fa >> 3) & 0x0F) == op && ((fa & 0x80) > 0) == (rp == 1)) by (bit_vector)
        requires
            rd <= 1 && tc <= 1 && aa <= 1 && rp <= 1 && op < 16 && fa == (rd | (tc << 1) | (aa
                << 2) | (op << 3) | (rp << 7)),
    ;

    let rc = h.rescode.spec_to_num();
    let cd = b2u8(h.checking_disabled);
    let ad = b2u8(h.authed_data);
    let zz = b2u8(h.z);
    let ra = b2u8(h.recursion_available);
    let fb = rc | (cd << 4) | (ad << 5) | (zz << 6) | (ra << 7);
    assert((fb & 0x0F) == rc && ((fb & 0x10) > 0) == (cd == 1) && ((fb & 0x20) > 0) == (ad == 1)
        && ((fb & 0x40) > 0) == (zz == 1) && ((fb & 0x80) > 0) == (ra == 1)) by (bit_vector)
        requires
            rc <= 5 && cd <= 1 && ad <= 1 && zz <= 1 && ra <= 1 && fb == (rc | (cd << 4) | (ad
                << 5) | (zz << 6) | (ra << 7)),
    ;
    crate::protocol::lemma_result_code_round_trip(h.rescode);
}

} // verus!
