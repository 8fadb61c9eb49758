use vstd::prelude::*;

use crate::buffer::BytePacketBuffer;
use crate::buffer::name_end;
use crate::buffer::parse_name_at;
use crate::buffer::qname_enc;
use crate::buffer::qname_wire;
use crate::buffer::u16_be;
use crate::buffer::u16_hi;
use crate::buffer::u16_lo;
use crate::protocol::DnsError;
use crate::protocol::QueryType;

verus! {

/// One entry of the question section: a domain name and the queried type.
/// The class octets are read and discarded on decode, and always written
/// as INTERNET (1) on encode.
#[derive(Clone, Debug, PartialEq, Eq)]
pub struct DnsQuestion {
    pub name: Vec<u8>,
    pub qtype: QueryType,
}

/// The mathematical shape of a question: its name octets and its type.
pub struct QuestionV {
    pub name: Seq<u8>,
    pub qtype: QueryType,
}

impl View for DnsQuestion {
    type V = QuestionV;

    open spec fn view(&self) -> QuestionV {
        QuestionV { name: self.name@, qtype: self.qtype }
    }
}

/// The question starting at `pos` and the offset right past it.
pub open spec fn parse_question(buf: Seq<u8>, pos: int) -> Result<(QuestionV, int), DnsError> {
    match parse_name_at(buf, pos, 0, true) {
        Err(e) => Err(e),
        Ok(name) => {
            let p1 = name_end(buf, pos);
            if p1 + 2 > 512 {
                Err(DnsError::BufferOverrun)
            } else if p1 + 4 > 512 {
                Err(DnsError::BufferOverrun)
            } else {
                Ok(
                    (
                        QuestionV {
                            name,
                            qtype: QueryType::spec_from_num(u16_be(buf[p1], buf[p1 + 1])),
                        },
                        p1 + 4,
                    ),
                )
            }
        },
    }
}

/// The wire octets of a question: the uncompressed name, the type code,
/// and class 1.
pub open spec fn question_wire(q: QuestionV) -> Seq<u8> {
    qname_wire(q.name) + seq![
        u16_hi(q.qtype.spec_to_num()),
        u16_lo(q.qtype.spec_to_num()),
        0u8,
        1u8,
    ]
}

/// Outcome of encoding a question at `pos`: the offset right past it, or
/// the error the encoder stops with.
pub open spec fn question_enc(q: QuestionV, pos: int) -> Result<int, DnsError> {
    match qname_enc(q.name, pos) {
        Err(e) => Err(e),
        Ok(p1) => {
            if p1 + 4 <= 512 {
                Ok(p1 + 4)
            } else {
                Err(DnsError::BufferOverrun)
            }
        },
    }
}

impl DnsQuestion {
    pub fn new(name: Vec<u8>, qtype: QueryType) -> (r: DnsQuestion)
        ensures
            r@.name == name@,
            r@.qtype == qtype,
    {
        DnsQuestion { name, qtype }
    }

    /// Decodes the question under the buffer's cursor, appending the name
    /// octets to `self.name`.
    pub fn read(&mut self, buffer: &mut BytePacketBuffer) -> (r: Result<(), DnsError>)
        ensures
            final(buffer).buf@ == old(buffer).buf@,
            match parse_question(old(buffer).buf@, old(buffer).pos as int) {
                Ok((q, end)) => r == Ok::<(), DnsError>(()) && final(self)@.name == old(self)@.name
                    + q.name && final(self)@.qtype == q.qtype && final(buffer).pos == end,
                Err(e) => r == Err::<(), DnsError>(e),
            },
    {
        buffer.read_qname(&mut self.name)?;
        self.qtype = QueryType::from_num(buffer.read_u16()?);
        let _class: u16 = buffer.read_u16()?;

        Ok(())
    }

    /// Encodes the question at the buffer's cursor.
    pub fn write(&self, buffer: &mut BytePacketBuffer) -> (r: Result<(), DnsError>)
        ensures
            final(buffer).buf@.len() == 512,
            ({
                let w = question_wire(self@);
                match question_enc(self@, old(buffer).pos as int) {
                    Ok(end) => r == Ok::<(), DnsError>(()) && end == old(buffer).pos + w.len()
                        && final(buffer).pos == end && final(buffer).buf@ == old(
                        buffer,
                    ).buf@.take(old(buffer).pos as int) + w + old(buffer).buf@.skip(
                        old(buffer).pos + w.len(),
                    ),
                    Err(e) => r == Err::<(), DnsError>(e),
                }
            }),
    {
        buffer.write_qname(self.name.as_slice())?;

        let typenum = self.qtype.to_num();
        let ghost mid_buf = buffer.buf@;
        let ghost mid_pos = buffer.pos as int;
        buffer.write_u16(typenum)?;
        buffer.write_u16(1)?;

        proof {
            let pos0 = old(buffer).pos as int;
            let w = question_wire(self@);
            let nw = qname_wire(self@.name);
            let orig = old(buffer).buf@;
            assert(w.len() == nw.len() + 4);
            assert(pos0 + nw.len() == mid_pos && mid_pos + 4 <= 512);
            assert(mid_buf == orig.take(pos0) + nw + orig.skip(pos0 + nw.len()));
            assert(orig.take(pos0).len() == pos0);
            assert forall|j: int| 0 <= j < nw.len() implies mid_buf[pos0 + j] == nw[j] by {
                assert((orig.take(pos0) + nw + orig.skip(pos0 + nw.len()))[pos0 + j] == nw[j]);
            }
            assert(mid_buf.subrange(pos0, mid_pos) =~= nw);
            assert((1u16 >> 8) as u8 == 0 && (1u16 & 0xFF) as u8 == 1) by (bit_vector);
            assert(buffer.buf@ =~= orig.take(pos0) + w + orig.skip(pos0 + w.len()));
        }
        Ok(())
    }
}

/// Decoding the octets the question encoder wrote yields the question
/// back, for a canonical name and a type whose code maps back to it.
pub proof fn lemma_question_round_trip(buf: Seq<u8>, q: QuestionV, pos: int)
    requires
        crate::buffer::name_wf(q.name),
        q.qtype matches QueryType::UNKNOWN(x) ==> QueryType::spec_from_num(x) == q.qtype,
        buf.len() == 512,
        0 <= pos,
        pos + question_wire(q).len() <= 512,
        buf.subrange(pos, pos + question_wire(q).len()) == question_wire(q),
    ensures
        parse_question(buf, pos) == Ok::<(QuestionV, int), DnsError>(
            (q, pos + question_wire(q).len()),
        ),
{
    let w = question_wire(q);
    let nw = qname_wire(q.name);
    assert forall|j: int| 0 <= j < w.len() implies buf[pos + j] == w[j] by {
        assert(buf.subrange(pos, pos + w.len())[j] == buf[pos + j]);
    }
    assert(buf.subrange(pos, pos + nw.len()) =~= nw);
    crate::buffer::lemma_qname_round_trip(buf, q.name, pos, 0, true);
    let p1 = pos + nw.len();
    let tv = q.qtype.spec_to_num();
    assert(w == nw + seq![u16_hi(tv), u16_lo(tv), 0u8, 1u8]);
    assert(w[nw.len() as int] == u16_hi(tv) && w[nw.len() as int + 1] == u16_lo(tv));
    assert(buf[p1] == w[nw.len() as int] && buf[p1 + 1] == w[nw.len() as int + 1]);
    assert(buf[p1] == u16_hi(tv) && buf[p1 + 1] == u16_lo(tv));
    assert(((((tv >> 8) as u8) as u16) * 256 + (((tv & 0xFF) as u8) as u16)) as u16 == tv)
        by (bit_vector);
    crate::protocol::lemma_query_type_round_trip(q.qtype);
}

} // verus!
