//! DNS messages as plain values, and their wire form through trust-dns-proto.

use vstd::prelude::*;
use trust_dns_proto::op::{Message, OpCode, Query};
use trust_dns_proto::rr::rdata::A;
use trust_dns_proto::rr::{DNSClass, Name, RData, Record};

verus! {

/// Response code: no error.
pub const RCODE_NO_ERROR: u16 = 0;

/// Response code: the query was malformed.
pub const RCODE_FORMAT_ERROR: u16 = 1;

/// Response code: the server failed to complete the query.
pub const RCODE_SERVER_FAILURE: u16 = 2;

/// Response code: the name does not exist.
pub const RCODE_NAME_ERROR: u16 = 3;

/// Record type of an IPv4 address record.
pub const TYPE_A: u16 = 1;

/// Time to live of a synthesized sinkhole answer, in seconds.
pub const SINKHOLE_TTL: u32 = 60;

/// The question of a message: name, record type and class. The name is in
/// ASCII form, with internationalized labels in their `xn--` encoding, so a
/// blocklist entry for such a name has to be written that way to match.
pub struct Question {
    pub name: String,
    pub qtype: u16,
    pub qclass: u16,
}

pub struct QuestionView {
    pub name: Seq<char>,
    pub qtype: u16,
    pub qclass: u16,
}

impl View for Question {
    type V = QuestionView;

    open spec fn view(&self) -> QuestionView {
        QuestionView { name: self.name@, qtype: self.qtype, qclass: self.qclass }
    }
}

/// The header fields of a query that a response echoes, and its questions
/// in the order they came.
pub struct Request {
    pub id: u16,
    pub op_code: u8,
    pub recursion_desired: bool,
    pub questions: Vec<Question>,
}

pub struct RequestView {
    pub id: u16,
    pub op_code: u8,
    pub recursion_desired: bool,
    pub questions: Seq<QuestionView>,
}

pub open spec fn questions_view(qs: Seq<Question>) -> Seq<QuestionView> {
    qs.map_values(|q: Question| q@)
}

impl View for Request {
    type V = RequestView;

    open spec fn view(&self) -> RequestView {
        RequestView {
            id: self.id,
            op_code: self.op_code,
            recursion_desired: self.recursion_desired,
            questions: questions_view(self.questions@),
        }
    }
}

/// An IPv4 address record: owner name, time to live and address.
pub struct AddressAnswer {
    pub name: String,
    pub ttl: u32,
    pub addr: [u8; 4],
}

pub struct AddressAnswerView {
    pub name: Seq<char>,
    pub ttl: u32,
    pub addr: Seq<u8>,
}

impl View for AddressAnswer {
    type V = AddressAnswerView;

    open spec fn view(&self) -> AddressAnswerView {
        AddressAnswerView { name: self.name@, ttl: self.ttl, addr: self.addr@ }
    }
}

/// A response: header fields, response code, question section and answer
/// section, each written to the wire as it stands.
pub struct Response {
    pub id: u16,
    pub op_code: u8,
    pub recursion_desired: bool,
    pub recursion_available: bool,
    pub response_code: u16,
    pub questions: Vec<Question>,
    pub answers: Vec<AddressAnswer>,
}

pub struct ResponseView {
    pub id: u16,
    pub op_code: u8,
    pub recursion_desired: bool,
    pub recursion_available: bool,
    pub response_code: u16,
    pub questions: Seq<QuestionView>,
    pub answers: Seq<AddressAnswerView>,
}

impl View for Response {
    type V = ResponseView;

    open spec fn view(&self) -> ResponseView {
        ResponseView {
            id: self.id,
            op_code: self.op_code,
            recursion_desired: self.recursion_desired,
            recursion_available: self.recursion_available,
            response_code: self.response_code,
            questions: questions_view(self.questions@),
            answers: self.answers@.map_values(|a: AddressAnswer| a@),
        }
    }
}

/// What trust-dns-proto decodes from these bytes, if it accepts them.
pub uninterp spec fn decoded(b: Seq<u8>) -> Option<RequestView>;

/// The bytes that trust-dns-proto encodes this response to, if it can.
pub uninterp spec fn encoded(r: ResponseView) -> Option<Seq<u8>>;

/// The IPv4 address that trust-dns-proto reads from this text, if any.
pub uninterp spec fn ipv4_parsed(s: Seq<char>) -> Option<Seq<u8>>;

pub open spec fn request_view(r: Option<Request>) -> Option<RequestView> {
    match r {
        Some(r) => Some(r@),
        None => None,
    }
}

pub open spec fn bytes_view(b: Option<Vec<u8>>) -> Option<Seq<u8>> {
    match b {
        Some(b) => Some(b@),
        None => None,
    }
}

/// Relies on Message::from_vec: the message read from the bytes, with its id,
/// op code, recursion-desired flag and questions.
#[verifier::external_body]
pub(crate) fn decode_request(bytes: &[u8]) -> (r: Option<Request>)
    ensures
        request_view(r) == decoded(bytes@),
{
    let m = Message::from_vec(bytes).ok()?;
    let questions = m.queries().iter().map(
        |q| Question { name: q.name().to_ascii(), qtype: q.query_type().into(), qclass: q.query_class().into() },
    ).collect();
    Some(Request { id: m.id(), op_code: m.op_code().into(), recursion_desired: m.recursion_desired(), questions })
}

/// Relies on Message::error_msg and Message::to_vec: the wire form of the
/// response, each field written as given.
#[verifier::external_body]
pub(crate) fn encode_response(r: &Response) -> (b: Option<Vec<u8>>)
    ensures
        bytes_view(b) == encoded(r@),
{
    let mut m = Message::error_msg(r.id, OpCode::from_u8(r.op_code).ok()?, r.response_code.into());
    m.set_recursion_desired(r.recursion_desired).set_recursion_available(r.recursion_available);
    for q in &r.questions {
        let mut query = Query::query(Name::from_ascii(&q.name).ok()?, q.qtype.into());
        m.add_query(query.set_query_class(DNSClass::from_u16(q.qclass).ok()?).clone());
    }
    for a in &r.answers {
        m.add_answer(Record::from_rdata(Name::from_ascii(&a.name).ok()?, a.ttl, RData::A(A(a.addr.into()))));
    }
    m.to_vec().ok()
}

/// Relies on the `FromStr` impl of trust-dns-proto's `A`: the four octets of a
/// dotted-quad IPv4 address.
#[verifier::external_body]
pub(crate) fn parse_ipv4(s: &str) -> (r: Option<[u8; 4]>)
    ensures
        r matches Some(a) ==> ipv4_parsed(s@) == Some(a@),
        r is None ==> ipv4_parsed(s@) is None,
{
    s.parse::<A>().ok().map(|a| a.0.octets())
}

} // verus!
