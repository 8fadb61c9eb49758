use vstd::prelude::*;

use crate::header::DnsHeader;
use crate::packet::DnsPacket;
use crate::protocol::QueryType;
use crate::protocol::ResultCode;
use crate::question::DnsQuestion;
use crate::question::QuestionV;

verus! {

/// Builds the packet that one upstream exchange sends: a fixed transaction
/// id, exactly one question, recursion desired, every other field clear.
pub fn build_lookup_packet(qname: &[u8], qtype: QueryType) -> (p: DnsPacket)
    ensures
        p@.header == (DnsHeader {
            id: 6666,
            questions: 1,
            recursion_desired: true,
            ..DnsHeader::spec_new()
        }),
        p@.questions == seq![QuestionV { name: qname@, qtype }],
        p@.answers.len() == 0,
        p@.authorities.len() == 0,
        p@.resources.len() == 0,
{
    let mut packet = DnsPacket::new();
    packet.header.id = 6666;
    packet.header.questions = 1;
    packet.header.recursion_desired = true;

    let name = vstd::slice::slice_to_vec(qname);
    packet.questions.push(DnsQuestion::new(name, qtype));
    proof {
        assert(packet@.questions =~= seq![QuestionV { name: qname@, qtype }]);
    }
    packet
}

/// Assembles the outbound response. The transaction id is echoed and the
/// response, recursion-desired and recursion-available flags are set.
/// With no question to answer the result code is FORMERR and every section
/// is empty. With a question, it is re-embedded into the response's
/// question section whatever the upstream outcome: on a reply, the reply's
/// result code and its three record sections are copied over in their
/// stored order; on a failed resolution the result code is SERVFAIL and
/// the three record sections stay empty.
pub fn assemble_response(
    request_id: u16,
    question: Option<DnsQuestion>,
    upstream: Option<DnsPacket>,
) -> (p: DnsPacket)
    ensures
        p@.header.id == request_id,
        p@.header.recursion_desired,
        p@.header.recursion_available,
        p@.header.response,
        p@.header.opcode == 0,
        !p@.header.authoritative_answer,
        !p@.header.truncated_message,
        !p@.header.z,
        !p@.header.authed_data,
        !p@.header.checking_disabled,
        question is None ==> p@.header.rescode == ResultCode::FORMERR && p@.questions.len() == 0
            && p@.answers.len() == 0 && p@.authorities.len() == 0 && p@.resources.len() == 0,
        question matches Some(q) ==> p@.questions == seq![q@],
        question matches Some(q) ==> (upstream matches Some(reply) ==> p@.header.rescode
            == reply@.header.rescode && p@.answers == reply@.answers && p@.authorities
            == reply@.authorities && p@.resources == reply@.resources),
        (question is Some && upstream is None) ==> p@.header.rescode == ResultCode::SERVFAIL
            && p@.answers.len() == 0 && p@.authorities.len() == 0 && p@.resources.len() == 0,
{
    let mut packet = DnsPacket::new();
    packet.header.id = request_id;
    packet.header.recursion_desired = true;
    packet.header.recursion_available = true;
    packet.header.response = true;

    match question {
        Some(q) => {
            let ghost qv = q@;
            packet.questions.push(q);
            proof {
                assert(packet@.questions =~= seq![qv]);
            }
            match upstream {
                Some(reply) => {
                    packet.header.rescode = reply.header.rescode;
                    packet.answers = reply.answers;
                    packet.authorities = reply.authorities;
                    packet.resources = reply.resources;
                },
                None => {
                    packet.header.rescode = ResultCode::SERVFAIL;
                },
            }
        },
        None => {
            packet.header.rescode = ResultCode::FORMERR;
        },
    }

    packet
}

} // verus!
