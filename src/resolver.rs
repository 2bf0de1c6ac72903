//! The resolution engine: decode, blocklist check, cache lookup, and the
//! decision to answer locally or to forward upstream.
//!
//! The engine performs no I/O. `Resolver::resolve` turns an inbound datagram
//! into an `Action`; when that action is to forward, the caller sends the
//! query upstream and hands the outcome to `Resolver::complete`, which yields
//! the bytes to send back.

use vstd::prelude::*;
use crate::blocklist::{Blocklist, blocked, canonical, canonicalize, is_ascii_text, lemma_canonical_ignores_case_and_root_dot, lower_seq};
use crate::cache::{DnsCache, after_get, after_put, lookup};
use crate::config::BlockAction;
use crate::message::{
    AddressAnswer, AddressAnswerView, Question, QuestionView, Request, RequestView, Response, ResponseView,
    decode_request, decoded, encode_response, encoded, ipv4_parsed, parse_ipv4, request_view, RCODE_FORMAT_ERROR,
    RCODE_NAME_ERROR, RCODE_NO_ERROR, RCODE_SERVER_FAILURE, SINKHOLE_TTL, TYPE_A,
};

verus! {

/// An error that leaves a query without a reply.
#[derive(PartialEq, Eq, Structural, Clone, Copy, Debug)]
pub enum ResolveError {
    /// The response could not be put in wire form.
    Encode,
    /// An undecodable query was forwarded and no reply came in time.
    Timeout,
    /// An undecodable query was forwarded and the exchange failed.
    Transport,
}

/// The settings that a configured resolver was built from are invalid.
#[derive(PartialEq, Eq, Structural, Clone, Copy, Debug)]
pub enum ConfigError {
    /// The sinkhole address is not an IPv4 address.
    InvalidSinkholeAddress,
}

/// A query that waits for the upstream server.
pub struct Pending {
    /// The bytes to send upstream, exactly as they came in.
    pub query: Vec<u8>,
    /// The decoded query, when it could be decoded.
    pub request: Option<Request>,
}

/// What to do with an inbound datagram.
pub enum Action {
    /// Send these bytes back to the client.
    Reply(Vec<u8>),
    /// Forward the query upstream, then call `Resolver::complete`.
    Forward(Pending),
    /// Send nothing back.
    Drop(ResolveError),
}

/// How the exchange with the upstream server ended.
pub enum UpstreamOutcome {
    /// A reply that answers the query.
    Reply(Vec<u8>),
    /// No reply within the time limit.
    Timeout,
    /// Sending or receiving failed.
    TransportError,
}

/// Decides, per query, between a local answer and forwarding.
#[derive(Clone, Copy)]
pub struct Resolver {
    block_action: BlockAction,
    sinkhole: [u8; 4],
}

pub open spec fn hex_digit(d: int) -> char {
    if d < 10 {
        ((48 + d) as u8) as char
    } else {
        ((87 + d) as u8) as char
    }
}

/// Four lower-case hex digits of `n`.
pub open spec fn hex4(n: u16) -> Seq<char> {
    seq![hex_digit(n as int / 4096), hex_digit((n as int / 256) % 16), hex_digit((n as int / 16) % 16), hex_digit(n as int % 16)]
}

/// The cache key of a question: its canonical name, type and class.
pub open spec fn signature(q: QuestionView) -> Seq<char> {
    canonical(q.name) + seq!['/'] + hex4(q.qtype) + seq!['/'] + hex4(q.qclass)
}

/// Two questions with the same type and class whose ASCII names differ only
/// in letter case, or in one trailing root dot, have the same cache key.
pub proof fn lemma_signature_ignores_case_and_root_dot(a: QuestionView, b: QuestionView)
    requires
        is_ascii_text(a.name),
        is_ascii_text(b.name),
        lower_seq(a.name) == lower_seq(b.name) || a.name == b.name.push('.'),
        b.name.len() == 0 || b.name.last() != '.',
        a.qtype == b.qtype,
        a.qclass == b.qclass,
    ensures
        signature(a) == signature(b),
{
    if a.name == b.name.push('.') {
        lemma_canonical_ignores_case_and_root_dot(b.name, b.name);
    } else {
        lemma_canonical_ignores_case_and_root_dot(b.name, a.name);
    }
}

/// The question a query is answered for: the first one, if there is any.
/// Further questions are ignored.
pub open spec fn first_question(req: RequestView) -> Option<QuestionView> {
    if req.questions.len() > 0 {
        Some(req.questions[0])
    } else {
        None
    }
}

/// The answer to a blocked question: the query's header echoed, recursion
/// available, the question echoed; under `Sinkhole`, success with an address
/// record for the question's name when it asks for one; under `Nxdomain`,
/// name error and no record.
pub open spec fn blocked_response(req: RequestView, q: QuestionView, action: BlockAction, sinkhole: Seq<u8>) -> ResponseView {
    ResponseView {
        id: req.id,
        op_code: req.op_code,
        recursion_desired: req.recursion_desired,
        recursion_available: true,
        response_code: if action == BlockAction::Sinkhole { RCODE_NO_ERROR } else { RCODE_NAME_ERROR },
        questions: seq![q],
        answers: if action == BlockAction::Sinkhole && q.qtype == TYPE_A {
            seq![AddressAnswerView { name: q.name, ttl: SINKHOLE_TTL, addr: sinkhole }]
        } else {
            Seq::empty()
        },
    }
}

/// A failure answer to a decoded query: the header and the first question
/// echoed, recursion available, no answer record.
pub open spec fn error_response(req: RequestView, rcode: u16) -> ResponseView {
    ResponseView {
        id: req.id,
        op_code: req.op_code,
        recursion_desired: req.recursion_desired,
        recursion_available: true,
        response_code: rcode,
        questions: match first_question(req) {
            Some(q) => seq![q],
            None => Seq::empty(),
        },
        answers: Seq::empty(),
    }
}

/// `a` replies with the encoded bytes, or is dropped when encoding failed.
pub open spec fn replies_with(a: Action, e: Option<Seq<u8>>) -> bool {
    match e {
        Some(b) => a matches Action::Reply(x) && x@ == b,
        None => a matches Action::Drop(ResolveError::Encode),
    }
}

/// `r` holds the encoded bytes, or the encoding error.
pub open spec fn result_with(r: Result<Vec<u8>, ResolveError>, e: Option<Seq<u8>>) -> bool {
    match e {
        Some(b) => r matches Ok(x) && x@ == b,
        None => r == Err::<Vec<u8>, ResolveError>(ResolveError::Encode),
    }
}

/// The upstream reply may answer the query: its transaction id is the query's.
pub open spec fn reply_answers(query: Seq<u8>, reply: Seq<u8>) -> bool {
    query.len() < 2 || (reply.len() >= 2 && reply[0] == query[0] && reply[1] == query[1])
}

/// Whether `reply` carries the transaction id of `query`. A query too short
/// to hold an id cannot be matched, and accepts any reply.
pub fn reply_matches(query: &[u8], reply: &[u8]) -> (r: bool)
    ensures
        r == reply_answers(query@, reply@),
{
    query.len() < 2 || (reply.len() >= 2 && reply[0] == query[0] && reply[1] == query[1])
}

fn copy_bytes(b: &[u8]) -> (r: Vec<u8>)
    ensures
        r@ == b@,
{
    let mut r: Vec<u8> = Vec::new();
    let mut i: usize = 0;
    while i < b.len()
        invariant
            i <= b.len(),
            r@ == b@.subrange(0, i as int),
        decreases b.len() - i,
    {
        r.push(b[i]);
        i += 1;
        assert(r@ =~= b@.subrange(0, i as int));
    }
    assert(b@.subrange(0, b.len() as int) =~= b@);
    r
}

/// Relies on the `FromIterator<&char>` impl of `String`: the characters in order.
#[verifier::external_body]
fn string_of_chars(v: &Vec<char>) -> (r: String)
    ensures
        r@ == v@,
{
    v.iter().collect()
}

fn hex_digit_char(d: u16) -> (c: char)
    requires
        d < 16,
    ensures
        c == hex_digit(d as int),
{
    if d < 10 {
        ((48 + d) as u8) as char
    } else {
        ((87 + d) as u8) as char
    }
}

fn push_hex4(v: &mut Vec<char>, n: u16)
    ensures
        final(v)@ == old(v)@ + hex4(n),
{
    v.push(hex_digit_char(n / 4096));
    v.push(hex_digit_char((n / 256) % 16));
    v.push(hex_digit_char((n / 16) % 16));
    v.push(hex_digit_char(n % 16));
    assert(final(v)@ =~= old(v)@ + hex4(n));
}

/// The cache key of a question. Questions that differ only in letter case or
/// in a trailing root dot get the same key.
pub fn signature_of(q: &Question) -> (r: String)
    ensures
        r@ == signature(q@),
{
    let mut v = canonicalize(q.name.as_str());
    v.push('/');
    push_hex4(&mut v, q.qtype);
    v.push('/');
    push_hex4(&mut v, q.qclass);
    assert(v@ =~= signature(q@));
    string_of_chars(&v)
}

fn copy_question(q: &Question) -> (r: Question)
    ensures
        r@ == q@,
{
    Question { name: q.name.clone(), qtype: q.qtype, qclass: q.qclass }
}

/// The answer to a decoded query whose question is blocked, under `action`.
pub fn create_blocked_response(req: &Request, q: &Question, action: BlockAction, sinkhole: [u8; 4]) -> (r: Response)
    ensures
        r@ == blocked_response(req@, q@, action, sinkhole@),
{
    let sinkholed = action == BlockAction::Sinkhole;
    let mut answers: Vec<AddressAnswer> = Vec::new();
    if sinkholed && q.qtype == TYPE_A {
        answers.push(AddressAnswer { name: q.name.clone(), ttl: SINKHOLE_TTL, addr: sinkhole });
    }
    let mut questions: Vec<Question> = Vec::new();
    questions.push(copy_question(q));
    let r = Response {
        id: req.id,
        op_code: req.op_code,
        recursion_desired: req.recursion_desired,
        recursion_available: true,
        response_code: if sinkholed { RCODE_NO_ERROR } else { RCODE_NAME_ERROR },
        questions,
        answers,
    };
    assert(r@.questions =~= seq![q@]);
    assert(r@.answers =~= blocked_response(req@, q@, action, sinkhole@).answers);
    r
}

/// A failure answer to a decoded query with the given response code.
pub fn create_error_response(req: &Request, rcode: u16) -> (r: Response)
    ensures
        r@ == error_response(req@, rcode),
{
    let mut questions: Vec<Question> = Vec::new();
    if req.questions.len() > 0 {
        questions.push(copy_question(&req.questions[0]));
    }
    let r = Response {
        id: req.id,
        op_code: req.op_code,
        recursion_desired: req.recursion_desired,
        recursion_available: true,
        response_code: rcode,
        questions,
        answers: Vec::new(),
    };
    assert(r@.questions =~= error_response(req@, rcode).questions);
    assert(r@.answers =~= Seq::<AddressAnswerView>::empty());
    r
}

fn reply(resp: &Response) -> (a: Action)
    ensures
        replies_with(a, encoded(resp@)),
{
    match encode_response(resp) {
        Some(b) => Action::Reply(b),
        None => Action::Drop(ResolveError::Encode),
    }
}

fn encode_result(resp: &Response) -> (r: Result<Vec<u8>, ResolveError>)
    ensures
        result_with(r, encoded(resp@)),
{
    match encode_response(resp) {
        Some(b) => Ok(b),
        None => Err(ResolveError::Encode),
    }
}

impl Resolver {
    pub closed spec fn action(&self) -> BlockAction {
        self.block_action
    }

    pub closed spec fn sinkhole(&self) -> Seq<u8> {
        self.sinkhole@
    }

    /// A resolver that answers blocked names as `block_action` says, with
    /// `sinkhole_ip` as the sinkhole address; an address that is not IPv4 is
    /// refused.
    pub fn new(block_action: BlockAction, sinkhole_ip: &str) -> (r: Result<Resolver, ConfigError>)
        ensures
            match ipv4_parsed(sinkhole_ip@) {
                Some(a) => r matches Ok(res) && res.action() == block_action && res.sinkhole() == a,
                None => r == Err::<Resolver, ConfigError>(ConfigError::InvalidSinkholeAddress),
            },
    {
        match parse_ipv4(sinkhole_ip) {
            Some(a) => Ok(Resolver { block_action, sinkhole: a }),
            None => Err(ConfigError::InvalidSinkholeAddress),
        }
    }

    /// First step of resolving one inbound datagram.
    ///
    /// Bytes that do not decode are forwarded as they are, without blocklist or
    /// cache. Only the first question is acted upon; a query without one gets a
    /// format-error answer. A blocked question gets the block answer; the blocklist is consulted before the
    /// cache. Otherwise a cached response is returned, or the query is forwarded.
    pub fn resolve(&self, blocklist: &Blocklist, cache: &mut DnsCache, query: &[u8]) -> (r: Action)
        requires
            old(cache).wf(),
        ensures
            final(cache).wf(),
            final(cache).capacity() == old(cache).capacity(),
            match decoded(query@) {
                None => {
                    &&& r matches Action::Forward(p) && p.query@ == query@ && p.request is None
                    &&& final(cache).entries() == old(cache).entries()
                },
                Some(req) => match first_question(req) {
                    None => {
                        &&& replies_with(r, encoded(error_response(req, RCODE_FORMAT_ERROR)))
                        &&& final(cache).entries() == old(cache).entries()
                    },
                    Some(q) => if blocked(blocklist@, q.name) {
                        &&& replies_with(r, encoded(blocked_response(req, q, self.action(), self.sinkhole())))
                        &&& final(cache).entries() == old(cache).entries()
                    } else {
                        &&& final(cache).entries() == after_get(old(cache).entries(), signature(q))
                        &&& match lookup(old(cache).entries(), signature(q)) {
                            Some(b) => r matches Action::Reply(x) && x@ == b,
                            None => r matches Action::Forward(p) && p.query@ == query@ && request_view(p.request) == Some(req),
                        }
                    },
                },
            },
    {
        let req = match decode_request(query) {
            None => {
                return Action::Forward(Pending { query: copy_bytes(query), request: None });
            },
            Some(req) => req,
        };
        if req.questions.len() == 0 {
            return reply(&create_error_response(&req, RCODE_FORMAT_ERROR));
        }
        let q = &req.questions[0];
        if blocklist.is_blocked(q.name.as_str()) {
            reply(&create_blocked_response(&req, q, self.block_action, self.sinkhole))
        } else {
            let key = signature_of(q);
            match cache.get(key.as_str()) {
                Some(b) => Action::Reply(b),
                None => Action::Forward(Pending { query: copy_bytes(query), request: Some(req) }),
            }
        }
    }

    /// Second step, after forwarding: the bytes to send back to the client.
    ///
    /// An upstream reply is relayed unchanged, and stored in the cache under
    /// the signature of the query's first question, when it has one. When the exchange
    /// fails, a decoded query gets a server-failure answer; an undecodable one
    /// is dropped with the error.
    pub fn complete(&self, cache: &mut DnsCache, pending: &Pending, outcome: UpstreamOutcome) -> (r: Result<Vec<u8>, ResolveError>)
        requires
            old(cache).wf(),
        ensures
            final(cache).wf(),
            final(cache).capacity() == old(cache).capacity(),
            match outcome {
                UpstreamOutcome::Reply(b) => {
                    &&& r matches Ok(x) && x@ == b@
                    &&& final(cache).entries() == match request_view(pending.request) {
                        Some(req) => match first_question(req) {
                            Some(q) => after_put(old(cache).entries(), old(cache).capacity(), signature(q), b@),
                            None => old(cache).entries(),
                        },
                        None => old(cache).entries(),
                    }
                },
                UpstreamOutcome::Timeout => {
                    &&& final(cache).entries() == old(cache).entries()
                    &&& match request_view(pending.request) {
                        Some(req) => result_with(r, encoded(error_response(req, RCODE_SERVER_FAILURE))),
                        None => r == Err::<Vec<u8>, ResolveError>(ResolveError::Timeout),
                    }
                },
                UpstreamOutcome::TransportError => {
                    &&& final(cache).entries() == old(cache).entries()
                    &&& match request_view(pending.request) {
                        Some(req) => result_with(r, encoded(error_response(req, RCODE_SERVER_FAILURE))),
                        None => r == Err::<Vec<u8>, ResolveError>(ResolveError::Transport),
                    }
                },
            },
    {
        match outcome {
            UpstreamOutcome::Reply(b) => {
                match &pending.request {
                    Some(req) => {
                        if req.questions.len() > 0 {
                            cache.put(signature_of(&req.questions[0]), copy_bytes(b.as_slice()));
                        }
                    },
                    None => {},
                }
                Ok(b)
            },
            UpstreamOutcome::Timeout => match &pending.request {
                Some(req) => encode_result(&create_error_response(req, RCODE_SERVER_FAILURE)),
                None => Err(ResolveError::Timeout),
            },
            UpstreamOutcome::TransportError => match &pending.request {
                Some(req) => encode_result(&create_error_response(req, RCODE_SERVER_FAILURE)),
                None => Err(ResolveError::Transport),
            },
        }
    }
}

} // verus!
