use vstd::prelude::*;

verus! {

/// The closed error taxonomy of the codec and of one forwarding exchange.
///
/// `BufferOverrun` — a cursor or range access reaches offset 512 or beyond.
/// `ExcessiveCompressionJumps` — more than five compression pointers were
/// followed while decoding one name (guards against pointer cycles).
/// `LabelTooLong` — a label of more than 63 octets was handed to the name
/// encoder.
/// `MalformedName` — a compression pointer resolves outside the decodable
/// 512-octet region.
/// `TransportFailure` — the datagram channel failed to send or receive.
/// `DecodeFailure` — a message could not be decoded into a packet.
#[derive(Clone, Copy, Debug, PartialEq, Eq, Structural)]
pub enum DnsError {
    BufferOverrun,
    ExcessiveCompressionJumps,
    LabelTooLong,
    MalformedName,
    TransportFailure,
    DecodeFailure,
}

/// The record types the codec understands; every other 16-bit code is
/// carried through as `UNKNOWN` so that decoding keeps it intact.
#[derive(Clone, Copy, Debug, PartialEq, Eq, Structural)]
pub enum QueryType {
    UNKNOWN(u16),
    A,
    NS,
    CNAME,
    MX,
    AAAA,
}

impl QueryType {
    /// The 16-bit wire code of this query type.
    pub open spec fn spec_to_num(self) -> u16 {
        match self {
            QueryType::UNKNOWN(x) => x,
            QueryType::A => 1,
            QueryType::NS => 2,
            QueryType::CNAME => 5,
            QueryType::MX => 15,
            QueryType::AAAA => 28,
        }
    }

    /// The query type a 16-bit wire code stands for; codes without a
    /// dedicated variant are preserved as `UNKNOWN`.
    pub open spec fn spec_from_num(num: u16) -> QueryType {
        if num == 1 {
            QueryType::A
        } else if num == 2 {
            QueryType::NS
        } else if num == 5 {
            QueryType::CNAME
        } else if num == 15 {
            QueryType::MX
        } else if num == 28 {
            QueryType::AAAA
        } else {
            QueryType::UNKNOWN(num)
        }
    }

    pub fn to_num(self) -> (r: u16)
        ensures
            r == self.spec_to_num(),
    {
        match self {
            QueryType::UNKNOWN(x) => x,
            QueryType::A => 1,
            QueryType::NS => 2,
            QueryType::CNAME => 5,
            QueryType::MX => 15,
            QueryType::AAAA => 28,
        }
    }

    pub fn from_num(num: u16) -> (r: QueryType)
        ensures
            r == QueryType::spec_from_num(num),
    {
        match num {
            1 => QueryType::A,
            2 => QueryType::NS,
            5 => QueryType::CNAME,
            15 => QueryType::MX,
            28 => QueryType::AAAA,
            _ => QueryType::UNKNOWN(num),
        }
    }
}

/// The response codes a header can carry.
#[derive(Clone, Copy, Debug, PartialEq, Eq, Structural)]
pub enum ResultCode {
    NOERROR,
    FORMERR,
    SERVFAIL,
    NXDOMAIN,
    NOTIMP,
    REFUSED,
}

impl ResultCode {
    /// The 4-bit wire value of this response code.
    pub open spec fn spec_to_num(self) -> u8 {
        match self {
            ResultCode::NOERROR => 0,
            ResultCode::FORMERR => 1,
            ResultCode::SERVFAIL => 2,
            ResultCode::NXDOMAIN => 3,
            ResultCode::NOTIMP => 4,
            ResultCode::REFUSED => 5,
        }
    }

    /// The response code a wire value stands for; unrecognized values fall
    /// back to `NOERROR`.
    pub open spec fn spec_from_num(num: u8) -> ResultCode {
        if num == 1 {
            ResultCode::FORMERR
        } else if num == 2 {
            ResultCode::SERVFAIL
        } else if num == 3 {
            ResultCode::NXDOMAIN
        } else if num == 4 {
            ResultCode::NOTIMP
        } else if num == 5 {
            ResultCode::REFUSED
        } else {
            ResultCode::NOERROR
        }
    }

    pub fn to_num(self) -> (r: u8)
        ensures
            r == self.spec_to_num(),
    {
        match self {
            ResultCode::NOERROR => 0,
            ResultCode::FORMERR => 1,
            ResultCode::SERVFAIL => 2,
            ResultCode::NXDOMAIN => 3,
            ResultCode::NOTIMP => 4,
            ResultCode::REFUSED => 5,
        }
    }

    pub fn from_num(num: u8) -> (r: ResultCode)
        ensures
            r == ResultCode::spec_from_num(num),
    {
        match num {
            1 => ResultCode::FORMERR,
            2 => ResultCode::SERVFAIL,
            3 => ResultCode::NXDOMAIN,
            4 => ResultCode::NOTIMP,
            5 => ResultCode::REFUSED,
            _ => ResultCode::NOERROR,
        }
    }
}

/// Numeric round trip: every named query type survives the passage through
/// its wire code, and so does an `UNKNOWN` carrying a code that no named
/// variant claims.
pub proof fn lemma_query_type_round_trip(qt: QueryType)
    requires
        qt matches QueryType::UNKNOWN(x) ==> QueryType::spec_from_num(x) == qt,
    ensures
        QueryType::spec_from_num(qt.spec_to_num()) == qt,
{
}

/// Numeric round trip for response codes: all six codes survive the passage
/// through their wire value.
pub proof fn lemma_result_code_round_trip(rc: ResultCode)
    ensures
        ResultCode::spec_from_num(rc.spec_to_num()) == rc,
{
}

} // verus!
