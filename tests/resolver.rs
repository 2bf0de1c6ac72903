use russdns::blocklist::Blocklist;
use russdns::cache::DnsCache;
use russdns::config::BlockAction;
use russdns::message::Question;
use russdns::resolver::{reply_matches, signature_of, Action, ConfigError, Pending, ResolveError, Resolver, UpstreamOutcome};
use trust_dns_proto::op::{Message, MessageType, OpCode, Query, ResponseCode};
use trust_dns_proto::rr::rdata::A;
use trust_dns_proto::rr::{DNSClass, Name, RData, RecordType};

fn query_bytes(id: u16, name: &str, rtype: RecordType) -> Vec<u8> {
    let mut m = Message::new();
    m.set_id(id).set_message_type(MessageType::Query).set_op_code(OpCode::Query).set_recursion_desired(true);
    m.add_query(Query::query(Name::from_ascii(name).unwrap(), rtype));
    m.to_vec().unwrap()
}

fn blocking(names: &[&str]) -> Blocklist {
    let lines: Vec<String> = names.iter().map(|s| s.to_string()).collect();
    Blocklist::from_lines(&lines)
}

fn reply_of(action: Action) -> Vec<u8> {
    match action {
        Action::Reply(b) => b,
        Action::Forward(_) => panic!("expected a reply, got a forward"),
        Action::Drop(e) => panic!("expected a reply, got a drop: {:?}", e),
    }
}

fn pending_of(action: Action) -> Pending {
    match action {
        Action::Forward(p) => p,
        Action::Reply(_) => panic!("expected a forward, got a reply"),
        Action::Drop(e) => panic!("expected a forward, got a drop: {:?}", e),
    }
}

#[test]
fn sinkhole_answers_address_query_for_subdomain() {
    let resolver = Resolver::new(BlockAction::Sinkhole, "0.0.0.0").unwrap();
    let list = blocking(&["example.com"]);
    let mut cache = DnsCache::new(8);
    let out = reply_of(resolver.resolve(&list, &mut cache, &query_bytes(0x1234, "www.example.com.", RecordType::A)));
    let m = Message::from_vec(&out).unwrap();
    assert_eq!(m.id(), 0x1234);
    assert_eq!(m.message_type(), MessageType::Response);
    assert_eq!(m.response_code(), ResponseCode::NoError);
    assert!(m.recursion_desired());
    assert!(m.recursion_available());
    assert_eq!(m.queries().len(), 1);
    assert_eq!(m.queries()[0].name().to_ascii(), "www.example.com.");
    assert_eq!(m.queries()[0].query_type(), RecordType::A);
    assert_eq!(m.queries()[0].query_class(), DNSClass::IN);
    assert_eq!(m.answers().len(), 1);
    let rec = &m.answers()[0];
    assert_eq!(rec.record_type(), RecordType::A);
    assert_eq!(rec.ttl(), 60);
    assert_eq!(rec.data(), Some(&RData::A(A::new(0, 0, 0, 0))));
}

#[test]
fn sinkhole_gives_empty_success_for_other_record_types() {
    let resolver = Resolver::new(BlockAction::Sinkhole, "10.1.2.3").unwrap();
    let list = blocking(&["example.com"]);
    let mut cache = DnsCache::new(8);
    let out = reply_of(resolver.resolve(&list, &mut cache, &query_bytes(7, "example.com.", RecordType::AAAA)));
    let m = Message::from_vec(&out).unwrap();
    assert_eq!(m.id(), 7);
    assert_eq!(m.response_code(), ResponseCode::NoError);
    assert_eq!(m.answers().len(), 0);
    assert_eq!(m.queries()[0].query_type(), RecordType::AAAA);
}

#[test]
fn sinkhole_uses_configured_address() {
    let resolver = Resolver::new(BlockAction::Sinkhole, "10.1.2.3").unwrap();
    let list = blocking(&["example.com"]);
    let mut cache = DnsCache::new(8);
    let out = reply_of(resolver.resolve(&list, &mut cache, &query_bytes(9, "ads.example.com.", RecordType::A)));
    let m = Message::from_vec(&out).unwrap();
    assert_eq!(m.answers()[0].data(), Some(&RData::A(A::new(10, 1, 2, 3))));
}

#[test]
fn nxdomain_answers_not_found_without_records() {
    let resolver = Resolver::new(BlockAction::Nxdomain, "0.0.0.0").unwrap();
    let list = blocking(&["example.com"]);
    let mut cache = DnsCache::new(8);
    let out = reply_of(resolver.resolve(&list, &mut cache, &query_bytes(0x4321, "www.example.com.", RecordType::A)));
    let m = Message::from_vec(&out).unwrap();
    assert_eq!(m.id(), 0x4321);
    assert_eq!(m.response_code(), ResponseCode::NXDomain);
    assert_eq!(m.answers().len(), 0);
    assert_eq!(m.queries()[0].name().to_ascii(), "www.example.com.");
}

#[test]
fn upstream_reply_is_relayed_and_then_served_from_cache() {
    let resolver = Resolver::new(BlockAction::Sinkhole, "0.0.0.0").unwrap();
    let list = Blocklist::new_empty();
    let mut cache = DnsCache::new(8);
    let q = query_bytes(0x0101, "example.org.", RecordType::A);
    let pending = pending_of(resolver.resolve(&list, &mut cache, &q));
    assert_eq!(pending.query, q);
    let upstream = vec![0x01, 0x01, 0x81, 0x80, 0, 1, 0, 0, 0, 0, 0, 0, 9, 9];
    let out = resolver.complete(&mut cache, &pending, UpstreamOutcome::Reply(upstream.clone()));
    assert_eq!(out, Ok(upstream.clone()));
    let again = query_bytes(0x0101, "Example.ORG.", RecordType::A);
    assert_eq!(reply_of(resolver.resolve(&list, &mut cache, &again)), upstream);
}

#[test]
fn blocklist_is_checked_before_cache() {
    let resolver = Resolver::new(BlockAction::Nxdomain, "0.0.0.0").unwrap();
    let mut cache = DnsCache::new(8);
    let q = query_bytes(5, "example.org.", RecordType::A);
    let pending = pending_of(resolver.resolve(&Blocklist::new_empty(), &mut cache, &q));
    let upstream = vec![0, 5, 0x81, 0x80, 0, 0, 0, 0, 0, 0, 0, 0];
    resolver.complete(&mut cache, &pending, UpstreamOutcome::Reply(upstream.clone())).unwrap();
    let out = reply_of(resolver.resolve(&blocking(&["example.org"]), &mut cache, &q));
    let m = Message::from_vec(&out).unwrap();
    assert_eq!(m.response_code(), ResponseCode::NXDomain);
}

#[test]
fn upstream_timeout_gives_server_failure() {
    let resolver = Resolver::new(BlockAction::Sinkhole, "0.0.0.0").unwrap();
    let mut cache = DnsCache::new(8);
    let q = query_bytes(0x0bad, "example.net.", RecordType::MX);
    let pending = pending_of(resolver.resolve(&Blocklist::new_empty(), &mut cache, &q));
    let out = resolver.complete(&mut cache, &pending, UpstreamOutcome::Timeout).unwrap();
    let m = Message::from_vec(&out).unwrap();
    assert_eq!(m.id(), 0x0bad);
    assert_eq!(m.response_code(), ResponseCode::ServFail);
    assert_eq!(m.answers().len(), 0);
    assert_eq!(m.queries()[0].query_type(), RecordType::MX);
    let out = resolver.complete(&mut cache, &pending, UpstreamOutcome::TransportError).unwrap();
    assert_eq!(Message::from_vec(&out).unwrap().response_code(), ResponseCode::ServFail);
    let next = pending_of(resolver.resolve(&Blocklist::new_empty(), &mut cache, &q));
    assert_eq!(next.query, q);
}

#[test]
fn undecodable_query_is_forwarded_unchanged() {
    let resolver = Resolver::new(BlockAction::Sinkhole, "0.0.0.0").unwrap();
    let list = blocking(&["example.com"]);
    let mut cache = DnsCache::new(8);
    let junk = vec![0x12, 0x34, 0x01];
    let pending = pending_of(resolver.resolve(&list, &mut cache, &junk));
    assert_eq!(pending.query, junk);
    assert!(pending.request.is_none());
    let back = vec![0x12, 0x34, 7, 7];
    assert_eq!(resolver.complete(&mut cache, &pending, UpstreamOutcome::Reply(back.clone())), Ok(back));
    assert_eq!(resolver.complete(&mut cache, &pending, UpstreamOutcome::Timeout), Err(ResolveError::Timeout));
    assert_eq!(resolver.complete(&mut cache, &pending, UpstreamOutcome::TransportError), Err(ResolveError::Transport));
}

#[test]
fn query_without_question_gets_format_error() {
    let resolver = Resolver::new(BlockAction::Sinkhole, "0.0.0.0").unwrap();
    let mut m = Message::new();
    m.set_id(77).set_message_type(MessageType::Query).set_op_code(OpCode::Query);
    let q = m.to_vec().unwrap();
    let mut cache = DnsCache::new(8);
    let out = reply_of(resolver.resolve(&Blocklist::new_empty(), &mut cache, &q));
    let r = Message::from_vec(&out).unwrap();
    assert_eq!(r.id(), 77);
    assert_eq!(r.response_code(), ResponseCode::FormErr);
    assert_eq!(r.queries().len(), 0);
}

#[test]
fn invalid_sinkhole_address_is_refused() {
    assert!(matches!(Resolver::new(BlockAction::Sinkhole, "not-an-ip"), Err(ConfigError::InvalidSinkholeAddress)));
    assert!(matches!(Resolver::new(BlockAction::Sinkhole, "1.2.3.400"), Err(ConfigError::InvalidSinkholeAddress)));
    assert!(Resolver::new(BlockAction::Nxdomain, "127.0.0.1").is_ok());
}

#[test]
fn reply_must_carry_query_id() {
    assert!(reply_matches(&[1, 2, 3], &[1, 2, 9]));
    assert!(!reply_matches(&[1, 2, 3], &[1, 3, 9]));
    assert!(!reply_matches(&[1, 2, 3], &[1]));
    assert!(reply_matches(&[1], &[]));
}

#[test]
fn signature_ignores_case_and_root_dot() {
    let a = Question { name: "WWW.Example.com.".to_string(), qtype: 1, qclass: 1 };
    let b = Question { name: "www.example.com".to_string(), qtype: 1, qclass: 1 };
    let c = Question { name: "www.example.com".to_string(), qtype: 28, qclass: 1 };
    assert_eq!(signature_of(&a), "www.example.com/0001/0001");
    assert_eq!(signature_of(&a), signature_of(&b));
    assert_eq!(signature_of(&c), "www.example.com/001c/0001");
}

#[test]
fn block_action_names() {
    assert_eq!(BlockAction::Sinkhole.to_string(), "Sinkhole");
    assert_eq!(BlockAction::Nxdomain.to_string(), "NXDOMAIN");
}

#[test]
fn only_first_question_is_acted_upon() {
    let resolver = Resolver::new(BlockAction::Nxdomain, "0.0.0.0").unwrap();
    let list = blocking(&["example.com"]);
    let mut m = Message::new();
    m.set_id(31).set_message_type(MessageType::Query).set_op_code(OpCode::Query);
    m.add_query(Query::query(Name::from_ascii("ads.example.com.").unwrap(), RecordType::A));
    m.add_query(Query::query(Name::from_ascii("example.org.").unwrap(), RecordType::A));
    let q = m.to_vec().unwrap();
    let mut cache = DnsCache::new(8);
    let out = reply_of(resolver.resolve(&list, &mut cache, &q));
    let r = Message::from_vec(&out).unwrap();
    assert_eq!(r.response_code(), ResponseCode::NXDomain);
    assert_eq!(r.queries().len(), 1);
    assert_eq!(r.queries()[0].name().to_ascii(), "ads.example.com.");

    let mut m = Message::new();
    m.set_id(32).set_message_type(MessageType::Query).set_op_code(OpCode::Query);
    m.add_query(Query::query(Name::from_ascii("example.org.").unwrap(), RecordType::A));
    m.add_query(Query::query(Name::from_ascii("ads.example.com.").unwrap(), RecordType::A));
    let q = m.to_vec().unwrap();
    let pending = pending_of(resolver.resolve(&list, &mut cache, &q));
    assert_eq!(pending.query, q);
}

#[test]
fn sinkhole_record_is_owned_by_question_name() {
    let resolver = Resolver::new(BlockAction::Sinkhole, "0.0.0.0").unwrap();
    let list = blocking(&["example.com"]);
    let mut cache = DnsCache::new(8);
    let out = reply_of(resolver.resolve(&list, &mut cache, &query_bytes(3, "Ads.Example.com.", RecordType::A)));
    let m = Message::from_vec(&out).unwrap();
    assert_eq!(m.answers()[0].name().to_ascii(), "Ads.Example.com.");
}
