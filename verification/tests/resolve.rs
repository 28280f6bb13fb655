use codecrafters_dns_server::packet::{Answer, DnsPacket, Question, ResponseCodes};
use codecrafters_dns_server::resolve::{
    forward_query, interpret, interpret_reply, local_answer, Resolution, ResolutionOutcome,
    ResolverError, Upstream, LOCAL_TTL,
};
use codecrafters_dns_server::wire::FormatError;
use codecrafters_dns_server::{DnsServer, ServerConfig};

fn labels(name: &str) -> Vec<String> {
    name.split('.').map(|l| l.to_string()).collect()
}

fn ask(name: &str) -> Question {
    Question::new(labels(name), 1, 1)
}

fn rr(name: &str, ttl: u32, data: &[u8]) -> Answer {
    Answer { question: ask(name), ttl, data: data.to_vec() }
}

fn request(id: u16, opcode: u8, names: &[&str]) -> DnsPacket {
    let mut p = DnsPacket::new();
    p.set_id(id);
    p.set_opcode(opcode);
    p.set_rd(1);
    for n in names {
        p.push_question(ask(n));
    }
    p
}

fn local_server() -> DnsServer {
    DnsServer::new(ServerConfig { port: 2053, resolver: None })
}

fn forwarding_server() -> DnsServer {
    DnsServer::new(ServerConfig { port: 2053, resolver: Some("127.0.0.1:5354".to_string()) })
}

fn reply(rcode: ResponseCodes, answers: Vec<Answer>, authorities: Vec<Answer>) -> Upstream {
    let mut p = DnsPacket::new();
    p.set_qr(1);
    p.set_rcode(rcode);
    for a in answers {
        p.push_answer(a);
    }
    for a in authorities {
        p.push_authority(a);
    }
    Upstream::Reply(p.encode())
}

#[test]
fn server_keeps_its_configuration() {
    let server = DnsServer::new(ServerConfig { port: 53, resolver: Some("8.8.8.8:53".to_string()) });
    assert_eq!(server.config().port, 53);
    assert_eq!(server.config().resolver, Some("8.8.8.8:53".to_string()));
}

#[test]
fn without_resolver_a_question_gets_the_fixed_answer() {
    let req = request(0x1234, 0, &["example.com"]);
    let resolution = local_server().begin_response(&req);
    assert!(resolution.is_finished());
    assert!(resolution.next_query().is_none());
    let response = resolution.into_response();
    assert_eq!(response.get_id(), 0x1234);
    assert_eq!(response.get_qr(), 1);
    assert_eq!(response.get_opcode(), 0);
    assert_eq!(response.get_rd(), 1);
    assert_eq!(response.get_rcode(), 0);
    let qs = response.get_questions();
    assert_eq!(qs.len(), 1);
    assert_eq!(qs[0].labels(), labels("example.com"));
    assert_eq!((qs[0].typ(), qs[0].class()), (1, 1));
    let ans = response.get_answers();
    assert_eq!(ans.len(), 1);
    assert_eq!(ans[0].question.labels(), labels("example.com"));
    assert_eq!((ans[0].question.typ(), ans[0].question.class()), (1, 1));
    assert_eq!(ans[0].ttl, 2200);
    assert_eq!(ans[0].data, vec![0, 0, 0, 0]);
    assert!(response.get_authorities().is_empty());
    assert_eq!((response.get_qd_count(), response.get_an_count(), response.get_ns_count()), (1, 1, 0));
}

#[test]
fn without_resolver_the_response_bytes_are_fixed() {
    let mut req = request(0x1234, 0, &["example.com"]);
    let decoded = DnsPacket::from_buf(&req.encode()).unwrap();
    let mut response = local_server().begin_response(&decoded).into_response();
    let mut expected = vec![0x12u8, 0x34, 0x81, 0x00, 0, 1, 0, 1, 0, 0, 0, 0];
    let mut q = vec![7u8];
    q.extend_from_slice(b"example");
    q.push(3);
    q.extend_from_slice(b"com");
    q.extend_from_slice(&[0, 0, 1, 0, 1]);
    expected.extend_from_slice(&q);
    expected.extend_from_slice(&q);
    expected.extend_from_slice(&[0, 0, 0x08, 0x98, 0, 4, 0, 0, 0, 0]);
    assert_eq!(response.encode(), expected);
}

#[test]
fn without_resolver_every_question_is_answered_in_order() {
    let req = request(7, 0, &["a.example", "b.example", "c.example"]);
    let response = local_server().begin_response(&req).into_response();
    let qs = response.get_questions();
    let ans = response.get_answers();
    assert_eq!(qs.len(), 3);
    assert_eq!(ans.len(), 3);
    for (i, n) in ["a.example", "b.example", "c.example"].iter().enumerate() {
        assert_eq!(qs[i].labels(), labels(n));
        assert_eq!(ans[i].question.labels(), labels(n));
        assert_eq!(ans[i].ttl, LOCAL_TTL);
    }
    assert_eq!(response.get_rcode(), 0);
}

#[test]
fn recursion_flag_is_copied_from_the_request() {
    let mut req = request(1, 0, &[]);
    req.set_rd(0);
    let response = local_server().begin_response(&req).into_response();
    assert_eq!(response.get_rd(), 0);
    assert_eq!(response.get_qr(), 1);
    assert!(response.get_questions().is_empty());
}

#[test]
fn other_opcode_is_not_implemented() {
    let req = request(0xCAFE, 1, &["example.com"]);
    for server in [local_server(), forwarding_server()] {
        let resolution = server.begin_response(&req);
        assert!(resolution.is_finished());
        let response = resolution.into_response();
        assert_eq!(response.get_rcode(), 4);
        assert_eq!(response.get_id(), 0xCAFE);
        assert_eq!(response.get_opcode(), 1);
        assert_eq!(response.get_qr(), 1);
        assert_eq!(response.get_rd(), 1);
        assert!(response.get_questions().is_empty());
        assert!(response.get_answers().is_empty());
        assert!(response.get_authorities().is_empty());
    }
}

#[test]
fn forwarded_query_holds_one_question_and_asks_for_recursion() {
    let req = request(5, 0, &["one.example", "two.example"]);
    let resolution = forwarding_server().begin_response(&req);
    assert!(!resolution.is_finished());
    assert_eq!(resolution.pending_question().unwrap().labels(), labels("one.example"));
    let query = resolution.next_query().unwrap();
    assert_eq!(query.get_rd(), 1);
    assert_eq!(query.get_qr(), 0);
    assert_eq!(query.get_opcode(), 0);
    assert_eq!(query.get_qd_count(), 1);
    let qs = query.get_questions();
    assert_eq!(qs.len(), 1);
    assert_eq!(qs[0].labels(), labels("one.example"));
    assert!(query.get_answers().is_empty());
}

#[test]
fn forward_query_is_fixed_by_identifier_and_question() {
    let mut query = forward_query(0x0A0B, ask("a.b"));
    assert_eq!(
        query.encode(),
        vec![0x0A, 0x0B, 0x01, 0, 0, 1, 0, 0, 0, 0, 0, 0, 1, b'a', 1, b'b', 0, 0, 1, 0, 1]
    );
}

#[test]
fn successful_reply_adds_question_and_all_answers() {
    let req = request(9, 0, &["example.com"]);
    let mut resolution = forwarding_server().begin_response(&req);
    let up = reply(
        ResponseCodes::NoError,
        vec![rr("example.com", 10, &[1, 1, 1, 1]), rr("example.com", 20, &[2, 2, 2, 2])],
        vec![rr("com", 30, &[3])],
    );
    assert_eq!(resolution.deliver(&up), Ok(()));
    assert!(resolution.is_finished());
    let response = resolution.into_response();
    assert_eq!(response.get_rcode(), 0);
    assert_eq!(response.get_id(), 9);
    assert_eq!(response.get_questions().len(), 1);
    let ans = response.get_answers();
    assert_eq!(ans.len(), 2);
    assert_eq!((ans[0].ttl, ans[0].data.clone()), (10, vec![1, 1, 1, 1]));
    assert_eq!((ans[1].ttl, ans[1].data.clone()), (20, vec![2, 2, 2, 2]));
    assert!(response.get_authorities().is_empty());
    assert_eq!((response.get_qd_count(), response.get_an_count(), response.get_ns_count()), (1, 2, 0));
}

#[test]
fn missing_name_adds_the_first_authority_only() {
    let req = request(0x0102, 0, &["nowhere.example"]);
    let mut resolution = forwarding_server().begin_response(&req);
    let up = reply(
        ResponseCodes::NameError,
        vec![],
        vec![rr("example", 3600, &[5, 6, 7]), rr("other", 1, &[8])],
    );
    assert_eq!(resolution.deliver(&up), Ok(()));
    assert!(resolution.is_finished());
    let response = resolution.into_response();
    let auth = response.get_authorities();
    assert_eq!(auth.len(), 1);
    assert_eq!(auth[0].question.labels(), labels("example"));
    assert_eq!((auth[0].ttl, auth[0].data.clone()), (3600, vec![5, 6, 7]));
    assert!(response.get_answers().is_empty());
    assert!(response.get_questions().is_empty());
    assert_eq!(response.get_rcode(), 0);
    assert_eq!(response.get_id(), 0x0102);
    assert_eq!((response.get_qd_count(), response.get_an_count(), response.get_ns_count()), (0, 0, 1));
    assert_eq!(response.get_ar_count(), 0);
}

#[test]
fn missing_name_does_not_stop_the_next_question() {
    let req = request(3, 0, &["gone.example", "here.example"]);
    let mut resolution = forwarding_server().begin_response(&req);
    let first = reply(ResponseCodes::NameError, vec![], vec![rr("example", 60, &[1])]);
    assert_eq!(resolution.deliver(&first), Ok(()));
    assert!(!resolution.is_finished());
    assert_eq!(resolution.pending_question().unwrap().labels(), labels("here.example"));
    let second = reply(ResponseCodes::NoError, vec![rr("here.example", 5, &[4, 3, 2, 1])], vec![]);
    assert_eq!(resolution.deliver(&second), Ok(()));
    assert!(resolution.is_finished());
    let response = resolution.into_response();
    assert_eq!(response.get_rcode(), 0);
    assert_eq!(response.get_authorities().len(), 1);
    let qs = response.get_questions();
    assert_eq!(qs.len(), 1);
    assert_eq!(qs[0].labels(), labels("here.example"));
    assert_eq!(response.get_answers().len(), 1);
}

#[test]
fn missing_name_without_authority_is_a_failure() {
    let req = request(3, 0, &["gone.example"]);
    let mut resolution = forwarding_server().begin_response(&req);
    let up = reply(ResponseCodes::NameError, vec![], vec![]);
    assert_eq!(resolution.deliver(&up), Err(ResolverError::NoAuthority));
    let response = resolution.into_response();
    assert_eq!(response.get_rcode(), 2);
    assert!(response.get_authorities().is_empty());
}

#[test]
fn timeout_is_a_server_failure() {
    let mut req = request(0x7777, 0, &["slow.example", "later.example"]);
    req.set_rd(1);
    let mut resolution = forwarding_server().begin_response(&req);
    assert_eq!(resolution.deliver(&Upstream::Failed), Err(ResolverError::Unreachable));
    assert!(resolution.is_finished());
    assert!(resolution.next_query().is_none());
    assert!(resolution.pending_question().is_none());
    let response = resolution.into_response();
    assert_eq!(response.get_rcode(), 2);
    assert_eq!(response.get_id(), 0x7777);
    assert_eq!(response.get_rd(), 1);
    assert_eq!(response.get_qr(), 1);
    assert!(response.get_answers().is_empty());
    assert!(response.get_questions().is_empty());
}

#[test]
fn failure_keeps_what_earlier_questions_brought() {
    let req = request(1, 0, &["ok.example", "bad.example", "never.example"]);
    let mut resolution = forwarding_server().begin_response(&req);
    let first = reply(ResponseCodes::NoError, vec![rr("ok.example", 1, &[1, 2, 3, 4])], vec![]);
    assert_eq!(resolution.deliver(&first), Ok(()));
    let second = reply(ResponseCodes::Refused, vec![rr("bad.example", 1, &[9])], vec![]);
    assert_eq!(resolution.deliver(&second), Err(ResolverError::Rcode(5)));
    assert!(resolution.is_finished());
    let response = resolution.into_response();
    assert_eq!(response.get_rcode(), 2);
    let qs = response.get_questions();
    assert_eq!(qs.len(), 1);
    assert_eq!(qs[0].labels(), labels("ok.example"));
    let ans = response.get_answers();
    assert_eq!(ans.len(), 1);
    assert_eq!(ans[0].data, vec![1, 2, 3, 4]);
}

#[test]
fn reply_that_is_no_message_is_a_failure() {
    let req = request(1, 0, &["x.example"]);
    let mut resolution = forwarding_server().begin_response(&req);
    let up = Upstream::Reply(vec![1, 2, 3]);
    assert_eq!(resolution.deliver(&up), Err(ResolverError::Malformed(FormatError::TooShort)));
    assert_eq!(resolution.into_response().get_rcode(), 2);
}

#[test]
fn delivery_after_the_end_changes_nothing() {
    let req = request(1, 0, &["x.example"]);
    let mut resolution = local_server().begin_response(&req);
    assert_eq!(resolution.deliver(&Upstream::Failed), Ok(()));
    let response = resolution.into_response();
    assert_eq!(response.get_rcode(), 0);
    assert_eq!(response.get_answers().len(), 1);
}

#[test]
fn begin_without_server_follows_the_flag() {
    let req = request(1, 0, &["x.example"]);
    assert!(Resolution::begin(&req, false).is_finished());
    assert!(!Resolution::begin(&req, true).is_finished());
}

#[test]
fn local_answer_is_the_placeholder_address() {
    let a = local_answer(Question::new(labels("example.com"), 28, 3));
    assert_eq!(a.ttl, 2200);
    assert_eq!(a.data, vec![0, 0, 0, 0]);
    assert_eq!(a.question.labels(), labels("example.com"));
    assert_eq!((a.question.typ(), a.question.class()), (28, 3));
}

#[test]
fn reply_is_read_by_its_result_code() {
    let mut ok = DnsPacket::new();
    ok.push_answer(rr("a", 1, &[1]));
    assert!(matches!(interpret_reply(&ok), Ok(ResolutionOutcome::Answers(v)) if v.len() == 1));
    let mut gone = DnsPacket::new();
    gone.set_rcode(ResponseCodes::NameError);
    assert!(matches!(interpret_reply(&gone), Err(ResolverError::NoAuthority)));
    gone.push_authority(rr("soa", 2, &[2]));
    assert!(matches!(interpret_reply(&gone), Ok(ResolutionOutcome::NameError(a)) if a.ttl == 2));
    let mut bad = DnsPacket::new();
    bad.set_rcode(ResponseCodes::FormatError);
    assert!(matches!(interpret_reply(&bad), Err(ResolverError::Rcode(1))));
    bad.set_rcode(ResponseCodes::ServerFailure);
    assert!(matches!(interpret_reply(&bad), Err(ResolverError::Rcode(2))));
    assert!(matches!(interpret(&Upstream::Failed), Err(ResolverError::Unreachable)));
    assert!(matches!(
        interpret(&Upstream::Reply(vec![0; 11])),
        Err(ResolverError::Malformed(FormatError::TooShort))
    ));
}
