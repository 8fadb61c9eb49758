use vstd::prelude::*;

use crate::buffer::BytePacketBuffer;
use crate::header::DnsHeader;
use crate::header::header_wire;
use crate::header::parse_header;
use crate::protocol::DnsError;
use crate::protocol::QueryType;
use crate::question::DnsQuestion;
use crate::question::QuestionV;
use crate::question::parse_question;
use crate::question::question_enc;
use crate::question::question_wire;
use crate::record::DnsRecord;
use crate::record::RecordV;
use crate::record::parse_record;
use crate::record::record_enc;
use crate::record::record_wire;

verus! {

/// A whole message: header, questions, and the three record sections in
/// their stored order.
#[derive(Clone, Debug, PartialEq, Eq)]
pub struct DnsPacket {
    pub header: DnsHeader,
    pub questions: Vec<DnsQuestion>,
    pub answers: Vec<DnsRecord>,
    pub authorities: Vec<DnsRecord>,
    pub resources: Vec<DnsRecord>,
}

/// The mathematical shape of a packet.
pub struct PacketV {
    pub header: DnsHeader,
    pub questions: Seq<QuestionV>,
    pub answers: Seq<RecordV>,
    pub authorities: Seq<RecordV>,
    pub resources: Seq<RecordV>,
}

pub open spec fn questions_view(v: Seq<DnsQuestion>) -> Seq<QuestionV> {
    v.map_values(|q: DnsQuestion| q@)
}

pub open spec fn records_view(v: Seq<DnsRecord>) -> Seq<RecordV> {
    v.map_values(|x: DnsRecord| x@)
}

impl View for DnsPacket {
    type V = PacketV;

    open spec fn view(&self) -> PacketV {
        PacketV {
            header: self.header,
            questions: questions_view(self.questions@),
            answers: records_view(self.answers@),
            authorities: records_view(self.authorities@),
            resources: records_view(self.resources@),
        }
    }
}

/// `n` consecutive questions starting at `pos`, and the offset right past
/// them.
pub open spec fn parse_questions(buf: Seq<u8>, pos: int, n: int) -> Result<
    (Seq<QuestionV>, int),
    DnsError,
>
    decreases n,
{
    if n <= 0 {
        Ok((Seq::empty(), pos))
    } else {
        match parse_question(buf, pos) {
            Err(e) => Err(e),
            Ok((q, p)) => match parse_questions(buf, p, n - 1) {
                Err(e) => Err(e),
                Ok((qs, end)) => Ok((seq![q] + qs, end)),
            },
        }
    }
}

/// `n` consecutive records starting at `pos`, and the offset right past
/// them.
pub open spec fn parse_records(buf: Seq<u8>, pos: int, n: int) -> Result<
    (Seq<RecordV>, int),
    DnsError,
>
    decreases n,
{
    if n <= 0 {
        Ok((Seq::empty(), pos))
    } else {
        match parse_record(buf, pos) {
            Err(e) => Err(e),
            Ok((rec, p)) => match parse_records(buf, p, n - 1) {
                Err(e) => Err(e),
                Ok((rs, end)) => Ok((seq![rec] + rs, end)),
            },
        }
    }
}

/// The packet starting at `pos`: the header, then exactly as many entries
/// of each section as the header's counts demand.
pub open spec fn parse_packet(buf: Seq<u8>, pos: int) -> Result<(PacketV, int), DnsError> {
    if pos + 12 > 512 {
        Err(DnsError::BufferOverrun)
    } else {
        let h = parse_header(buf, pos);
        match parse_questions(buf, pos + 12, h.questions as int) {
            Err(e) => Err(e),
            Ok((qs, p1)) => match parse_records(buf, p1, h.answers as int) {
                Err(e) => Err(e),
                Ok((ans, p2)) => match parse_records(buf, p2, h.authoritative_entries as int) {
                    Err(e) => Err(e),
                    Ok((auth, p3)) => match parse_records(
                        buf,
                        p3,
                        h.resource_entries as int,
                    ) {
                        Err(e) => Err(e),
                        Ok((res, p4)) => Ok(
                            (
                                PacketV {
                                    header: h,
                                    questions: qs,
                                    answers: ans,
                                    authorities: auth,
                                    resources: res,
                                },
                                p4,
                            ),
                        ),
                    },
                },
            },
        }
    }
}

pub open spec fn questions_wire(qs: Seq<QuestionV>) -> Seq<u8>
    decreases qs.len(),
{
    if qs.len() == 0 {
        Seq::empty()
    } else {
        question_wire(qs[0]) + questions_wire(qs.skip(1))
    }
}

pub open spec fn records_wire(rs: Seq<RecordV>) -> Seq<u8>
    decreases rs.len(),
{
    if rs.len() == 0 {
        Seq::empty()
    } else {
        record_wire(rs[0]) + records_wire(rs.skip(1))
    }
}

pub open spec fn questions_enc(qs: Seq<QuestionV>, pos: int) -> Result<int, DnsError>
    decreases qs.len(),
{
    if qs.len() == 0 {
        Ok(pos)
    } else {
        match question_enc(qs[0], pos) {
            Err(e) => Err(e),
            Ok(p) => questions_enc(qs.skip(1), p),
        }
    }
}

pub open spec fn records_enc(rs: Seq<RecordV>, pos: int) -> Result<int, DnsError>
    decreases rs.len(),
{
    if rs.len() == 0 {
        Ok(pos)
    } else {
        match record_enc(rs[0], pos) {
            Err(e) => Err(e),
            Ok(p) => records_enc(rs.skip(1), p),
        }
    }
}

/// The header as encoding rewrites it: the four counts taken from the
/// in-memory sections, any stale counts ignored.
pub open spec fn with_counts(p: PacketV) -> DnsHeader {
    DnsHeader {
        questions: p.questions.len() as u16,
        answers: p.answers.len() as u16,
        authoritative_entries: p.authorities.len() as u16,
        resource_entries: p.resources.len() as u16,
        ..p.header
    }
}

/// The wire octets of a whole packet.
pub open spec fn packet_wire(p: PacketV) -> Seq<u8> {
    header_wire(with_counts(p)) + questions_wire(p.questions) + records_wire(p.answers)
        + records_wire(p.authorities) + records_wire(p.resources)
}

/// Outcome of encoding a whole packet at `pos`.
pub open spec fn packet_enc(p: PacketV, pos: int) -> Result<int, DnsError> {
    if pos + 12 > 512 {
        Err(DnsError::BufferOverrun)
    } else {
        match questions_enc(p.questions, pos + 12) {
            Err(e) => Err(e),
            Ok(p1) => match records_enc(p.answers, p1) {
                Err(e) => Err(e),
                Ok(p2) => match records_enc(p.authorities, p2) {
                    Err(e) => Err(e),
                    Ok(p3) => records_enc(p.resources, p3),
                },
            },
        }
    }
}

/// Splicing `b` right after an earlier splice of `a` amounts to one splice
/// of `a + b`.
pub proof fn lemma_splice_extend(
    orig: Seq<u8>,
    a: Seq<u8>,
    b: Seq<u8>,
    mid: Seq<u8>,
    fin: Seq<u8>,
    pos0: int,
)
    requires
        0 <= pos0,
        pos0 + a.len() + b.len() <= orig.len(),
        mid == orig.take(pos0) + a + orig.skip(pos0 + a.len()),
        fin == mid.take(pos0 + a.len()) + b + mid.skip(pos0 + a.len() + b.len()),
    ensures
        fin == orig.take(pos0) + (a + b) + orig.skip(pos0 + a.len() + b.len()),
{
    assert(fin =~= orig.take(pos0) + (a + b) + orig.skip(pos0 + a.len() + b.len()));
}

impl DnsPacket {
    /// A fresh, empty packet with an all-clear header.
    pub fn new() -> (r: DnsPacket)
        ensures
            r@.header == DnsHeader::spec_new(),
            r@.questions == Seq::<QuestionV>::empty(),
            r@.answers == Seq::<RecordV>::empty(),
            r@.authorities == Seq::<RecordV>::empty(),
            r@.resources == Seq::<RecordV>::empty(),
    {
        let r = DnsPacket {
            header: DnsHeader::new(),
            questions: Vec::new(),
            answers: Vec::new(),
            authorities: Vec::new(),
            resources: Vec::new(),
        };
        proof {
            assert(r@.questions =~= Seq::<QuestionV>::empty());
            assert(r@.answers =~= Seq::<RecordV>::empty());
            assert(r@.authorities =~= Seq::<RecordV>::empty());
            assert(r@.resources =~= Seq::<RecordV>::empty());
        }
        r
    }

    /// Decodes `count` consecutive questions from the buffer.
    #[verifier::loop_isolation(false)]
    #[verifier::rlimit(100)]
    #[verifier::spinoff_prover]
    fn read_questions(buffer: &mut BytePacketBuffer, count: u16) -> (r: Result<
        Vec<DnsQuestion>,
        DnsError,
    >)
        ensures
            final(buffer).buf@ == old(buffer).buf@,
            match parse_questions(old(buffer).buf@, old(buffer).pos as int, count as int) {
                Ok((qs, end)) => (r matches Ok(v) && questions_view(v@) == qs) && final(buffer).pos == end,
                Err(e) => r == Err::<Vec<DnsQuestion>, DnsError>(e),
            },
    {
        let ghost buf0 = buffer.buf@;
        let ghost pos0 = buffer.pos as int;
        let mut out: Vec<DnsQuestion> = Vec::new();
        let mut i: u16 = 0;
        proof {
            assert(questions_view(out@) =~= Seq::<QuestionV>::empty());
        }
        while i < count
            invariant
                i <= count,
                buffer.buf@ == buf0,
                out@.len() == i,
                ({
                    let full = parse_questions(buf0, pos0, count as int);
                    match parse_questions(buf0, buffer.pos as int, count - i) {
                        Ok((qs, end)) => full == Ok::<(Seq<QuestionV>, int), DnsError>(
                            (questions_view(out@) + qs, end),
                        ),
                        Err(e) => full == Err::<(Seq<QuestionV>, int), DnsError>(e),
                    }
                }),
            decreases count - i,
        {
            let ghost pre_pos = buffer.pos as int;
            let ghost pre_out = out@;
            let mut question = DnsQuestion::new(Vec::new(), QueryType::UNKNOWN(0));
            question.read(buffer)?;
            out.push(question);
            i = i + 1;
            proof {
                match parse_question(buf0, pre_pos) {
                    Ok((q, p)) => {
                        assert(question@.name =~= q.name);
                        assert(questions_view(out@) =~= questions_view(pre_out).push(q));
                        match parse_questions(buf0, p, count - i) {
                            Ok((qs, end)) => {
                                assert(questions_view(pre_out) + (seq![q] + qs) =~= questions_view(
                                    out@,
                                ) + qs);
                            },
                            Err(e) => {},
                        }
                    },
                    Err(e) => {},
                }
            }
        }
        proof {
            assert(questions_view(out@) + Seq::<QuestionV>::empty() =~= questions_view(out@));
        }
        Ok(out)
    }

    /// Decodes `count` consecutive records from the buffer.
    #[verifier::loop_isolation(false)]
    #[verifier::rlimit(100)]
    #[verifier::spinoff_prover]
    fn read_records(buffer: &mut BytePacketBuffer, count: u16) -> (r: Result<
        Vec<DnsRecord>,
        DnsError,
    >)
        ensures
            final(buffer).buf@ == old(buffer).buf@,
            match parse_records(old(buffer).buf@, old(buffer).pos as int, count as int) {
                Ok((rs, end)) => (r matches Ok(v) && records_view(v@) == rs) && final(buffer).pos
                    == end,
                Err(e) => r == Err::<Vec<DnsRecord>, DnsError>(e),
            },
    {
        let ghost buf0 = buffer.buf@;
        let ghost pos0 = buffer.pos as int;
        let mut out: Vec<DnsRecord> = Vec::new();
        let mut i: u16 = 0;
        proof {
            assert(records_view(out@) =~= Seq::<RecordV>::empty());
        }
        while i < count
            invariant
                i <= count,
                buffer.buf@ == buf0,
                out@.len() == i,
                ({
                    let full = parse_records(buf0, pos0, count as int);
                    match parse_records(buf0, buffer.pos as int, count - i) {
                        Ok((rs, end)) => full == Ok::<(Seq<RecordV>, int), DnsError>(
                            (records_view(out@) + rs, end),
                        ),
                        Err(e) => full == Err::<(Seq<RecordV>, int), DnsError>(e),
                    }
                }),
            decreases count - i,
        {
            let ghost pre_pos = buffer.pos as int;
            let ghost pre_out = out@;
            let rec = DnsRecord::read(buffer)?;
            out.push(rec);
            i = i + 1;
            proof {
                match parse_record(buf0, pre_pos) {
                    Ok((rv, p)) => {
                        assert(records_view(out@) =~= records_view(pre_out).push(rv));
                        match parse_records(buf0, p, count - i) {
                            Ok((rs, end)) => {
                                assert(records_view(pre_out) + (seq![rv] + rs) =~= records_view(
                                    out@,
                                ) + rs);
                            },
                            Err(e) => {},
                        }
                    },
                    Err(e) => {},
                }
            }
        }
        proof {
            assert(records_view(out@) + Seq::<RecordV>::empty() =~= records_view(out@));
        }
        Ok(out)
    }

    /// Decodes a whole packet from the buffer, the section sizes driven
    /// strictly by the header's counts.
    pub fn from_buffer(buffer: &mut BytePacketBuffer) -> (r: Result<DnsPacket, DnsError>)
        ensures
            final(buffer).buf@ == old(buffer).buf@,
            match parse_packet(old(buffer).buf@, old(buffer).pos as int) {
                Ok((p, end)) => (r matches Ok(pk) && pk@ == p) && final(buffer).pos == end,
                Err(e) => r == Err::<DnsPacket, DnsError>(e),
            },
    {
        let mut result = DnsPacket::new();
        result.header.read(buffer)?;

        let questions = DnsPacket::read_questions(buffer, result.header.questions)?;
        let answers = DnsPacket::read_records(buffer, result.header.answers)?;
        let authorities = DnsPacket::read_records(buffer, result.header.authoritative_entries)?;
        let resources = DnsPacket::read_records(buffer, result.header.resource_entries)?;
        result.questions = questions;
        result.answers = answers;
        result.authorities = authorities;
        result.resources = resources;

        Ok(result)
    }

    /// Encodes `questions` one after the other at the buffer's cursor.
    #[verifier::loop_isolation(false)]
    #[verifier::rlimit(100)]
    #[verifier::spinoff_prover]
    fn write_questions(questions: &Vec<DnsQuestion>, buffer: &mut BytePacketBuffer) -> (r: Result<
        (),
        DnsError,
    >)
        ensures
            final(buffer).buf@.len() == 512,
            ({
                let vs = questions_view(questions@);
                let w = questions_wire(vs);
                match questions_enc(vs, old(buffer).pos as int) {
                    Ok(end) => r == Ok::<(), DnsError>(()) && end == old(buffer).pos + w.len()
                        && final(buffer).pos == end && (end <= 512 || end == old(buffer).pos) && (old(buffer).pos <= 512 ==> final(buffer).buf@ == old(buffer).buf@.take(old(buffer).pos as int) + w + old(buffer).buf@.skip(old(buffer).pos + w.len())) && (old(buffer).pos > 512 ==> *final(buffer) == *old(buffer)),
                    Err(e) => r == Err::<(), DnsError>(e),
                }
            }),
    {
        let ghost buf0 = buffer.buf@;
        let ghost pos0 = buffer.pos as int;
        let ghost vs = questions_view(questions@);
        let mut i: usize = 0;
        proof {
            assert(vs.skip(0) =~= vs);
            if pos0 <= 512 {
                assert(buffer.buf@.subrange(pos0, pos0) =~= Seq::<u8>::empty());
                assert(questions_wire(vs) =~= buffer.buf@.subrange(pos0, pos0) + questions_wire(
                    vs,
                ));
            }
        }
        while i < questions.len()
            invariant
                i <= questions@.len(),
                vs == questions_view(questions@),
                buffer.buf@.len() == 512,
                pos0 <= buffer.pos as int,
                buffer.pos as int <= 512 || buffer.pos as int == pos0,
                forall|k: int| 0 <= k < pos0 && k < 512 ==> buffer.buf@[k] == buf0[k],
                forall|k: int| buffer.pos as int <= k < 512 ==> buffer.buf@[k] == buf0[k],
                questions_enc(vs, pos0) == questions_enc(vs.skip(i as int), buffer.pos as int),
                pos0 <= buffer.pos as int <= 512 ==> questions_wire(vs) =~= buffer.buf@.subrange(
                    pos0,
                    buffer.pos as int,
                ) + questions_wire(vs.skip(i as int)),
                i > 0 ==> pos0 <= 512 && buffer.pos as int <= 512,
                i == 0 ==> *buffer == *old(buffer),
            decreases questions@.len() - i,
        {
            let ghost pre_buf = buffer.buf@;
            let ghost pre_pos = buffer.pos as int;
            proof {
                assert(vs.skip(i as int)[0] == vs[i as int]);
                assert(vs.skip(i as int).skip(1) =~= vs.skip(i + 1));
            }
            let q = &questions[i];
            q.write(buffer)?;
            i = i + 1;
            proof {
                let qw = question_wire(vs[i - 1]);
                assert(pre_buf.take(pre_pos).len() == pre_pos);
                assert forall|j: int| 0 <= j < qw.len() implies buffer.buf@[pre_pos + j]
                    == qw[j] by {
                    assert((pre_buf.take(pre_pos) + qw + pre_buf.skip(pre_pos + qw.len()))[pre_pos
                        + j] == qw[j]);
                }
                assert(buffer.buf@.subrange(pos0, buffer.pos as int) =~= pre_buf.subrange(
                    pos0,
                    pre_pos,
                ) + qw);
            }
        }
        proof {
            assert(i as int == vs.len());
            assert(vs.skip(i as int) =~= Seq::<QuestionV>::empty());
            assert(questions_enc(vs, pos0) == Ok::<int, DnsError>(buffer.pos as int));
            assert(questions_wire(vs.skip(i as int)) =~= Seq::<u8>::empty());
            if pos0 <= buffer.pos as int <= 512 {
                assert(questions_wire(vs) =~= buffer.buf@.subrange(pos0, buffer.pos as int));
                assert(buffer.buf@ =~= buf0.take(pos0) + questions_wire(vs) + buf0.skip(
                    pos0 + questions_wire(vs).len(),
                ));
            } else {
                assert(i == 0);
                assert(questions_wire(vs) =~= Seq::<u8>::empty());
            }
        }
        Ok(())
    }

    /// Encodes `records` one after the other at the buffer's cursor.
    #[verifier::loop_isolation(false)]
    #[verifier::rlimit(100)]
    #[verifier::spinoff_prover]
    fn write_records(records: &Vec<DnsRecord>, buffer: &mut BytePacketBuffer) -> (r: Result<
        (),
        DnsError,
    >)
        ensures
            final(buffer).buf@.len() == 512,
            ({
                let vs = records_view(records@);
                let w = records_wire(vs);
                match records_enc(vs, old(buffer).pos as int) {
                    Ok(end) => r == Ok::<(), DnsError>(()) && end == old(buffer).pos + w.len()
                        && final(buffer).pos == end && (end <= 512 || end == old(buffer).pos) && (old(buffer).pos <= 512 ==> final(buffer).buf@ == old(buffer).buf@.take(old(buffer).pos as int) + w + old(buffer).buf@.skip(old(buffer).pos + w.len())) && (old(buffer).pos > 512 ==> *final(buffer) == *old(buffer)),
                    Err(e) => r == Err::<(), DnsError>(e),
                }
            }),
    {
        let ghost buf0 = buffer.buf@;
        let ghost pos0 = buffer.pos as int;
        let ghost vs = records_view(records@);
        let mut i: usize = 0;
        proof {
            assert(vs.skip(0) =~= vs);
            if pos0 <= 512 {
                assert(buffer.buf@.subrange(pos0, pos0) =~= Seq::<u8>::empty());
                assert(records_wire(vs) =~= buffer.buf@.subrange(pos0, pos0) + records_wire(vs));
            }
        }
        while i < records.len()
            invariant
                i <= records@.len(),
                vs == records_view(records@),
                buffer.buf@.len() == 512,
                pos0 <= buffer.pos as int,
                buffer.pos as int <= 512 || buffer.pos as int == pos0,
                forall|k: int| 0 <= k < pos0 && k < 512 ==> buffer.buf@[k] == buf0[k],
                forall|k: int| buffer.pos as int <= k < 512 ==> buffer.buf@[k] == buf0[k],
                records_enc(vs, pos0) == records_enc(vs.skip(i as int), buffer.pos as int),
                pos0 <= buffer.pos as int <= 512 ==> records_wire(vs) =~= buffer.buf@.subrange(
                    pos0,
                    buffer.pos as int,
                ) + records_wire(vs.skip(i as int)),
                pos0 > 512 ==> *buffer == *old(buffer) && records_wire(vs) =~= records_wire(
                    vs.skip(i as int),
                ),
            decreases records@.len() - i,
        {
            let ghost pre_buf = buffer.buf@;
            let ghost pre_pos = buffer.pos as int;
            proof {
                assert(vs.skip(i as int)[0] == vs[i as int]);
                assert(vs.skip(i as int).skip(1) =~= vs.skip(i + 1));
            }
            let rec = &records[i];
            rec.write(buffer)?;
            i = i + 1;
            proof {
                let rw = record_wire(vs[i - 1]);
                if pre_pos <= 512 {
                    assert(pre_buf.take(pre_pos).len() == pre_pos);
                    assert forall|j: int| 0 <= j < rw.len() implies buffer.buf@[pre_pos + j]
                        == rw[j] by {
                        assert((pre_buf.take(pre_pos) + rw + pre_buf.skip(pre_pos + rw.len()))[
                            pre_pos + j] == rw[j]);
                    }
                    assert(buffer.buf@.subrange(pos0, buffer.pos as int) =~= pre_buf.subrange(
                        pos0,
                        pre_pos,
                    ) + rw);
                } else {
                    assert(rw.len() == 0);
                    assert(rw =~= Seq::<u8>::empty());
                    assert(records_wire(vs.skip(i - 1)) =~= records_wire(vs.skip(i as int)));
                }
            }
        }
        proof {
            assert(i as int == vs.len());
            assert(vs.skip(i as int) =~= Seq::<RecordV>::empty());
            assert(records_enc(vs, pos0) == Ok::<int, DnsError>(buffer.pos as int));
            assert(records_wire(vs.skip(i as int)) =~= Seq::<u8>::empty());
            if pos0 <= buffer.pos as int <= 512 {
                assert(records_wire(vs) =~= buffer.buf@.subrange(pos0, buffer.pos as int));
                assert(buffer.buf@ =~= buf0.take(pos0) + records_wire(vs) + buf0.skip(
                    pos0 + records_wire(vs).len(),
                ));
            } else {
                assert(records_wire(vs) =~= Seq::<u8>::empty());
            }
        }
        Ok(())
    }

    /// Encodes the whole packet at the buffer's cursor, the header's four
    /// counts overwritten from the in-memory section lengths first.
    #[verifier::loop_isolation(false)]
    #[verifier::rlimit(100)]
    #[verifier::spinoff_prover]
    pub fn write(&mut self, buffer: &mut BytePacketBuffer) -> (r: Result<(), DnsError>)
        requires
            old(self).questions@.len() <= 0xFFFF,
            old(self).answers@.len() <= 0xFFFF,
            old(self).authorities@.len() <= 0xFFFF,
            old(self).resources@.len() <= 0xFFFF,
        ensures
            final(buffer).buf@.len() == 512,
            final(self).header == with_counts(old(self)@),
            final(self).questions@ == old(self).questions@,
            final(self).answers@ == old(self).answers@,
            final(self).authorities@ == old(self).authorities@,
            final(self).resources@ == old(self).resources@,
            ({
                let w = packet_wire(old(self)@);
                match packet_enc(old(self)@, old(buffer).pos as int) {
                    Ok(end) => r == Ok::<(), DnsError>(()) && end == old(buffer).pos + w.len()
                        && final(buffer).pos == end && final(buffer).buf@ == old(buffer).buf@.take(old(buffer).pos as int) + w + old(buffer).buf@.skip(
                        old(buffer).pos + w.len(),
                    ),
                    Err(e) => r == Err::<(), DnsError>(e),
                }
            }),
    {
        self.header.questions = self.questions.len() as u16;
        self.header.answers = self.answers.len() as u16;
        self.header.authoritative_entries = self.authorities.len() as u16;
        self.header.resource_entries = self.resources.len() as u16;
        proof {
            assert(self.header == with_counts(old(self)@));
        }

        self.header.write(buffer)?;
        let ghost h_buf = buffer.buf@;
        let ghost p_h = buffer.pos as int;
        DnsPacket::write_questions(&self.questions, buffer)?;
        let ghost q_buf = buffer.buf@;
        let ghost p_q = buffer.pos as int;
        DnsPacket::write_records(&self.answers, buffer)?;
        let ghost an_buf = buffer.buf@;
        let ghost p_an = buffer.pos as int;
        DnsPacket::write_records(&self.authorities, buffer)?;
        let ghost au_buf = buffer.buf@;
        let ghost p_au = buffer.pos as int;
        DnsPacket::write_records(&self.resources, buffer)?;

        proof {
            let pos0 = old(buffer).pos as int;
            let orig = old(buffer).buf@;
            let hw = header_wire(with_counts(old(self)@));
            let qw = questions_wire(old(self)@.questions);
            let aw = records_wire(old(self)@.answers);
            let uw = records_wire(old(self)@.authorities);
            let rw = records_wire(old(self)@.resources);
            let w = packet_wire(old(self)@);
            assert(hw.len() == 12);
            lemma_splice_extend(orig, hw, qw, h_buf, q_buf, pos0);
            lemma_splice_extend(orig, hw + qw, aw, q_buf, an_buf, pos0);
            lemma_splice_extend(orig, hw + qw + aw, uw, an_buf, au_buf, pos0);
            lemma_splice_extend(orig, hw + qw + aw + uw, rw, au_buf, buffer.buf@, pos0);
            assert(w == hw + qw + aw + uw + rw);
        }
        Ok(())
    }

    /// Removes and returns the last question, if any.
    pub fn take_last_question(&mut self) -> (r: Option<DnsQuestion>)
        ensures
            final(self).header == old(self).header,
            final(self).answers@ == old(self).answers@,
            final(self).authorities@ == old(self).authorities@,
            final(self).resources@ == old(self).resources@,
            old(self).questions@.len() == 0 ==> r is None && final(self).questions@ == old(self).questions@,
            old(self).questions@.len() > 0 ==> (r matches Some(q) && q@ == old(self)@.questions.last()) && final(self).questions@ == old(self).questions@.drop_last(),
    {
        let r = self.questions.pop();
        proof {
            if old(self).questions@.len() > 0 {
                assert(old(self)@.questions.last() == old(self).questions@.last()@);
            }
        }
        r
    }
}

/// A question the encoder can reproduce exactly: a canonical name and a
/// type whose wire code maps back to it.
pub open spec fn question_canonical(q: QuestionV) -> bool {
    &&& crate::buffer::name_wf(q.name)
    &&& (q.qtype matches QueryType::UNKNOWN(x) ==> QueryType::spec_from_num(x) == q.qtype)
}

/// Decoding a run of encoded questions yields them all back, in order.
pub proof fn lemma_questions_round_trip(buf: Seq<u8>, qs: Seq<QuestionV>, pos: int)
    requires
        forall|i: int| 0 <= i < qs.len() ==> question_canonical(#[trigger] qs[i]),
        buf.len() == 512,
        0 <= pos,
        pos + questions_wire(qs).len() <= 512,
        buf.subrange(pos, pos + questions_wire(qs).len()) == questions_wire(qs),
    ensures
        parse_questions(buf, pos, qs.len() as int) == Ok::<(Seq<QuestionV>, int), DnsError>(
            (qs, pos + questions_wire(qs).len()),
        ),
    decreases qs.len(),
{
    if qs.len() == 0 {
        assert(qs =~= Seq::<QuestionV>::empty());
    } else {
        let qw = question_wire(qs[0]);
        let rest = qs.skip(1);
        let rw = questions_wire(rest);
        let w = questions_wire(qs);
        assert(w == qw + rw);
        assert forall|j: int| 0 <= j < w.len() implies buf[pos + j] == w[j] by {
            assert(buf.subrange(pos, pos + w.len())[j] == buf[pos + j]);
        }
        assert(buf.subrange(pos, pos + qw.len()) =~= qw);
        crate::question::lemma_question_round_trip(buf, qs[0], pos);
        assert forall|j: int| 0 <= j < rw.len() implies buf[pos + qw.len() + j] == rw[j] by {
            assert(w[qw.len() + j] == rw[j]);
        }
        assert(buf.subrange(pos + qw.len(), pos + qw.len() + rw.len()) =~= rw);
        assert forall|i: int| 0 <= i < rest.len() implies question_canonical(
            #[trigger] rest[i],
        ) by {
            assert(rest[i] == qs[i + 1]);
        }
        lemma_questions_round_trip(buf, rest, pos + qw.len());
        assert(seq![qs[0]] + rest =~= qs);
    }
}

/// Decoding a run of encoded records yields them all back, in order.
pub proof fn lemma_records_round_trip(buf: Seq<u8>, rs: Seq<RecordV>, pos: int)
    requires
        forall|i: int| 0 <= i < rs.len() ==> crate::record::record_canonical(#[trigger] rs[i]),
        buf.len() == 512,
        0 <= pos,
        pos + records_wire(rs).len() <= 512,
        buf.subrange(pos, pos + records_wire(rs).len()) == records_wire(rs),
    ensures
        parse_records(buf, pos, rs.len() as int) == Ok::<(Seq<RecordV>, int), DnsError>(
            (rs, pos + records_wire(rs).len()),
        ),
    decreases rs.len(),
{
    if rs.len() == 0 {
        assert(rs =~= Seq::<RecordV>::empty());
    } else {
        let rw0 = record_wire(rs[0]);
        let rest = rs.skip(1);
        let rw = records_wire(rest);
        let w = records_wire(rs);
        assert(w == rw0 + rw);
        assert forall|j: int| 0 <= j < w.len() implies buf[pos + j] == w[j] by {
            assert(buf.subrange(pos, pos + w.len())[j] == buf[pos + j]);
        }
        assert(buf.subrange(pos, pos + rw0.len()) =~= rw0);
        crate::record::lemma_record_round_trip(buf, rs[0], pos);
        assert forall|j: int| 0 <= j < rw.len() implies buf[pos + rw0.len() + j] == rw[j] by {
            assert(w[rw0.len() + j] == rw[j]);
        }
        assert(buf.subrange(pos + rw0.len(), pos + rw0.len() + rw.len()) =~= rw);
        assert forall|i: int| 0 <= i < rest.len() implies crate::record::record_canonical(
            #[trigger] rest[i],
        ) by {
            assert(rest[i] == rs[i + 1]);
        }
        lemma_records_round_trip(buf, rest, pos + rw0.len());
        assert(seq![rs[0]] + rest =~= rs);
    }
}

/// A packet the encoder reproduces exactly: an opcode that fits its four
/// bits, section counts that match the sections, and canonical entries
/// throughout.
pub open spec fn packet_canonical(p: PacketV) -> bool {
    &&& p.header.opcode < 16
    &&& p.questions.len() <= 0xFFFF
    &&& p.answers.len() <= 0xFFFF
    &&& p.authorities.len() <= 0xFFFF
    &&& p.resources.len() <= 0xFFFF
    &&& p.header == with_counts(p)
    &&& (forall|i: int| 0 <= i < p.questions.len() ==> question_canonical(#[trigger] p.questions[i]))
    &&& (forall|i: int|
        0 <= i < p.answers.len() ==> crate::record::record_canonical(#[trigger] p.answers[i]))
    &&& (forall|i: int|
        0 <= i < p.authorities.len() ==> crate::record::record_canonical(
            #[trigger] p.authorities[i],
        ))
    &&& (forall|i: int|
        0 <= i < p.resources.len() ==> crate::record::record_canonical(#[trigger] p.resources[i]))
}


/// A subrange that equals a five-part concatenation splits into the five
/// corresponding subranges.
#[verifier::rlimit(100)]
#[verifier::spinoff_prover]
pub proof fn lemma_subrange_of_concat5(
    buf: Seq<u8>,
    s1: Seq<u8>,
    s2: Seq<u8>,
    s3: Seq<u8>,
    s4: Seq<u8>,
    s5: Seq<u8>,
    pos: int,
)
    requires
        0 <= pos,
        pos + s1.len() + s2.len() + s3.len() + s4.len() + s5.len() <= buf.len(),
        buf.subrange(
            pos,
            pos + s1.len() + s2.len() + s3.len() + s4.len() + s5.len(),
        ) == s1 + s2 + s3 + s4 + s5,
    ensures
        buf.subrange(pos, pos + s1.len()) == s1,
        buf.subrange(pos + s1.len(), pos + s1.len() + s2.len()) == s2,
        buf.subrange(pos + s1.len() + s2.len(), pos + s1.len() + s2.len() + s3.len()) == s3,
        buf.subrange(
            pos + s1.len() + s2.len() + s3.len(),
            pos + s1.len() + s2.len() + s3.len() + s4.len(),
        ) == s4,
        buf.subrange(
            pos + s1.len() + s2.len() + s3.len() + s4.len(),
            pos + s1.len() + s2.len() + s3.len() + s4.len() + s5.len(),
        ) == s5,
{
    let w = s1 + s2 + s3 + s4 + s5;
    assert forall|j: int| 0 <= j < w.len() implies buf[pos + j] == w[j] by {
        assert(buf.subrange(pos, pos + w.len())[j] == buf[pos + j]);
    }
    assert forall|j: int| 0 <= j < s1.len() implies buf[pos + j] == s1[j] by {
        assert(w[j] == (s1 + s2 + s3 + s4)[j]);
        assert((s1 + s2 + s3 + s4)[j] == (s1 + s2 + s3)[j]);
        assert((s1 + s2 + s3)[j] == (s1 + s2)[j]);
        assert((s1 + s2)[j] == s1[j]);
    }
    assert(buf.subrange(pos, pos + s1.len()) =~= s1);
    let o1 = s1.len() as int;
    assert forall|j: int| 0 <= j < s2.len() implies buf[pos + o1 + j] == s2[j] by {
        assert(w[o1 + j] == (s1 + s2 + s3 + s4)[o1 + j]);
        assert((s1 + s2 + s3 + s4)[o1 + j] == (s1 + s2 + s3)[o1 + j]);
        assert((s1 + s2 + s3)[o1 + j] == (s1 + s2)[o1 + j]);
        assert((s1 + s2)[o1 + j] == s2[j]);
    }
    assert(buf.subrange(pos + o1, pos + o1 + s2.len()) =~= s2);
    let o2 = o1 + s2.len() as int;
    assert forall|j: int| 0 <= j < s3.len() implies buf[pos + o2 + j] == s3[j] by {
        assert(w[o2 + j] == (s1 + s2 + s3 + s4)[o2 + j]);
        assert((s1 + s2 + s3 + s4)[o2 + j] == (s1 + s2 + s3)[o2 + j]);
        assert((s1 + s2 + s3)[o2 + j] == s3[j]);
    }
    assert(buf.subrange(pos + o2, pos + o2 + s3.len()) =~= s3);
    let o3 = o2 + s3.len() as int;
    assert forall|j: int| 0 <= j < s4.len() implies buf[pos + o3 + j] == s4[j] by {
        assert(w[o3 + j] == (s1 + s2 + s3 + s4)[o3 + j]);
        assert((s1 + s2 + s3 + s4)[o3 + j] == s4[j]);
    }
    assert(buf.subrange(pos + o3, pos + o3 + s4.len()) =~= s4);
    let o4 = o3 + s4.len() as int;
    assert forall|j: int| 0 <= j < s5.len() implies buf[pos + o4 + j] == s5[j] by {
        assert(w[o4 + j] == s5[j]);
    }
    assert(buf.subrange(pos + o4, pos + o4 + s5.len()) =~= s5);
}

/// The round trip of a whole message: decoding the octets the packet
/// encoder wrote yields the packet back, header, questions and all three
/// record sections alike.
#[verifier::rlimit(100)]
#[verifier::spinoff_prover]
pub proof fn lemma_packet_round_trip(buf: Seq<u8>, p: PacketV, pos: int)
    requires
        packet_canonical(p),
        buf.len() == 512,
        0 <= pos,
        pos + packet_wire(p).len() <= 512,
        buf.subrange(pos, pos + packet_wire(p).len()) == packet_wire(p),
    ensures
        parse_packet(buf, pos) == Ok::<(PacketV, int), DnsError>((p, pos + packet_wire(p).len())),
{
    let hw = header_wire(with_counts(p));
    let qw = questions_wire(p.questions);
    let aw = records_wire(p.answers);
    let uw = records_wire(p.authorities);
    let rw = records_wire(p.resources);
    let w = packet_wire(p);
    assert(w == hw + qw + aw + uw + rw);
    assert(hw.len() == 12);
    lemma_subrange_of_concat5(buf, hw, qw, aw, uw, rw, pos);
    let o1 = pos + 12;
    let o2 = o1 + qw.len();
    let o3 = o2 + aw.len();
    let o4 = o3 + uw.len();
    crate::header::lemma_header_round_trip(buf, with_counts(p), pos);
    lemma_questions_round_trip(buf, p.questions, o1);
    lemma_records_round_trip(buf, p.answers, o2);
    lemma_records_round_trip(buf, p.authorities, o3);
    lemma_records_round_trip(buf, p.resources, o4);

    let h = with_counts(p);
    assert(h.questions as int == p.questions.len());
    assert(h.answers as int == p.answers.len());
    assert(h.authoritative_entries as int == p.authorities.len());
    assert(h.resource_entries as int == p.resources.len());
}

} // verus!
