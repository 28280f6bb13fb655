use codecrafters_dns_server::packet::{Answer, DnsPacket, Question};

fn question(label: &str) -> Question {
    Question::new(vec![label.to_string()], 1, 1)
}

fn record(label: &str) -> Answer {
    Answer { question: question(label), ttl: 60, data: vec![1, 2, 3, 4] }
}

#[test]
fn each_push_sets_the_count_of_its_section() {
    let mut p = DnsPacket::new();
    p.push_question(question("a"));
    assert_eq!((p.get_qd_count(), p.get_an_count(), p.get_ns_count(), p.get_ar_count()), (1, 0, 0, 0));
    p.push_answer(record("a"));
    p.push_answer(record("b"));
    assert_eq!((p.get_qd_count(), p.get_an_count(), p.get_ns_count(), p.get_ar_count()), (1, 2, 0, 0));
    p.push_authority(record("c"));
    p.push_authority(record("d"));
    p.push_authority(record("e"));
    assert_eq!((p.get_qd_count(), p.get_an_count(), p.get_ns_count(), p.get_ar_count()), (1, 2, 3, 0));
    assert_eq!(p.get_questions().len(), 1);
    assert_eq!(p.get_answers().len(), 2);
    assert_eq!(p.get_authorities().len(), 3);
}

#[test]
fn counts_follow_many_pushes() {
    let mut p = DnsPacket::new();
    for i in 0..300usize {
        p.push_answer(record("x"));
        assert_eq!(p.get_an_count() as usize, i + 1);
        assert_eq!(p.get_answers().len(), i + 1);
    }
    assert_eq!(p.head[6], 1);
    assert_eq!(p.head[7], 44);
}

#[test]
fn a_push_after_a_wrong_count_puts_the_count_right() {
    let mut p = DnsPacket::new();
    p.set_qd_count(40);
    p.push_question(question("a"));
    assert_eq!(p.get_qd_count(), 1);
}

#[test]
fn add_answer_copies_the_data() {
    let mut p = DnsPacket::new();
    p.add_answer(question("a"), 77, &[9, 9]);
    let answers = p.get_answers();
    assert_eq!(answers.len(), 1);
    assert_eq!(answers[0].ttl, 77);
    assert_eq!(answers[0].data, vec![9, 9]);
    assert_eq!(answers[0].question.labels(), vec!["a".to_string()]);
    assert_eq!(p.get_an_count(), 1);
}

#[test]
fn pushes_keep_their_order() {
    let mut p = DnsPacket::new();
    p.push_question(question("first"));
    p.push_question(question("second"));
    let qs = p.get_questions();
    assert_eq!(qs[0].labels(), vec!["first".to_string()]);
    assert_eq!(qs[1].labels(), vec!["second".to_string()]);
}

#[test]
fn a_count_holds_sixteen_bits() {
    let mut p = DnsPacket::new();
    for _ in 0..65535usize {
        p.push_question(question("a"));
    }
    assert_eq!(p.get_qd_count(), 65535);
    p.push_question(question("a"));
    assert_eq!(p.get_questions().len(), 65536);
    assert_eq!(p.get_qd_count(), 0);
    p.push_question(question("a"));
    assert_eq!(p.get_qd_count(), 1);
}
