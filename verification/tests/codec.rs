use codecrafters_dns_server::packet::{encode_name, Answer, DnsPacket, Parser, Question};
use codecrafters_dns_server::parser::decode_name;
use codecrafters_dns_server::wire::FormatError;

fn name(labels: &[&str]) -> Vec<String> {
    labels.iter().map(|l| l.to_string()).collect()
}

fn same_question(a: &Question, b: &Question) -> bool {
    a.labels() == b.labels() && a.typ() == b.typ() && a.class() == b.class()
}

fn same_record(a: &Answer, b: &Answer) -> bool {
    same_question(&a.question, &b.question) && a.ttl == b.ttl && a.data == b.data
}

fn same_packet(a: &DnsPacket, b: &DnsPacket) -> bool {
    let (qa, qb) = (a.get_questions(), b.get_questions());
    let (aa, ab) = (a.get_answers(), b.get_answers());
    let (na, nb) = (a.get_authorities(), b.get_authorities());
    a.head == b.head
        && qa.len() == qb.len()
        && aa.len() == ab.len()
        && na.len() == nb.len()
        && qa.iter().zip(qb.iter()).all(|(x, y)| same_question(x, y))
        && aa.iter().zip(ab.iter()).all(|(x, y)| same_record(x, y))
        && na.iter().zip(nb.iter()).all(|(x, y)| same_record(x, y))
}

#[test]
fn name_is_written_as_length_prefixed_labels_and_a_zero() {
    assert_eq!(
        encode_name(&name(&["example", "com"])),
        vec![7, b'e', b'x', b'a', b'm', b'p', b'l', b'e', 3, b'c', b'o', b'm', 0]
    );
    assert_eq!(encode_name(&name(&[])), vec![0]);
}

#[test]
fn name_counts_bytes_not_characters() {
    assert_eq!(encode_name(&name(&["é"])), vec![2, 0xC3, 0xA9, 0]);
}

#[test]
fn question_encodes_labels_then_type_and_class() {
    let q = Question::new(name(&["example", "com"]), 1, 0x0102);
    let mut expected = vec![7u8];
    expected.extend_from_slice(b"example");
    expected.push(3);
    expected.extend_from_slice(b"com");
    expected.extend_from_slice(&[0, 0, 1, 1, 2]);
    assert_eq!(q.encode(), expected);
}

#[test]
fn record_encodes_ttl_length_and_data() {
    let a = Answer { question: Question::new(name(&["a"]), 1, 1), ttl: 0x01020304, data: vec![9, 8, 7] };
    assert_eq!(a.encode(), vec![1, b'a', 0, 0, 1, 0, 1, 1, 2, 3, 4, 0, 3, 9, 8, 7]);
}

#[test]
fn packet_encodes_header_then_sections_in_order() {
    let mut p = DnsPacket::new();
    p.set_id(0x0102);
    p.push_question(Question::new(name(&["q"]), 1, 1));
    p.push_answer(Answer { question: Question::new(name(&["a"]), 1, 1), ttl: 5, data: vec![7] });
    p.push_authority(Answer { question: Question::new(name(&["n"]), 2, 1), ttl: 6, data: vec![] });
    let bytes = p.encode();
    let mut expected = vec![1u8, 2, 0, 0, 0, 1, 0, 1, 0, 1, 0, 0];
    expected.extend_from_slice(&[1, b'q', 0, 0, 1, 0, 1]);
    expected.extend_from_slice(&[1, b'a', 0, 0, 1, 0, 1, 0, 0, 0, 5, 0, 1, 7]);
    expected.extend_from_slice(&[1, b'n', 0, 0, 2, 0, 1, 0, 0, 0, 6, 0, 0]);
    assert_eq!(bytes, expected);
}

#[test]
fn encode_recomputes_the_section_counts() {
    let mut p = DnsPacket::new();
    p.push_question(Question::new(name(&["q"]), 1, 1));
    p.set_qd_count(9);
    p.set_a_count(9);
    p.set_ns_count(9);
    p.set_ar_count(3);
    let bytes = p.encode();
    assert_eq!(&bytes[..12], &[0, 0, 0, 0, 0, 1, 0, 0, 0, 0, 0, 3]);
    assert_eq!(p.get_qd_count(), 1);
    assert_eq!(p.get_an_count(), 0);
    assert_eq!(p.get_ns_count(), 0);
    assert_eq!(p.get_ar_count(), 3);
}

#[test]
fn decode_reads_header_and_sections() {
    let mut bytes = vec![0xAAu8, 0xBB, 0x01, 0x00, 0, 1, 0, 1, 0, 1, 0, 0];
    bytes.extend_from_slice(&[3, b'w', b'w', b'w', 2, b'i', b'o', 0, 0, 1, 0, 1]);
    bytes.extend_from_slice(&[1, b'a', 0, 0, 5, 0, 1, 0, 0, 1, 0, 0, 4, 1, 2, 3, 4]);
    bytes.extend_from_slice(&[0, 0, 6, 0, 1, 0, 0, 0, 9, 0, 2, 8, 9]);
    let p = DnsPacket::from_buf(&bytes).unwrap();
    assert_eq!(p.get_id(), 0xAABB);
    assert_eq!(p.get_rd(), 1);
    assert_eq!(&p.head[..], &bytes[..12]);
    let qs = p.get_questions();
    assert_eq!(qs.len(), 1);
    assert_eq!(qs[0].labels(), name(&["www", "io"]));
    assert_eq!((qs[0].typ(), qs[0].class()), (1, 1));
    let ans = p.get_answers();
    assert_eq!(ans.len(), 1);
    assert_eq!(ans[0].question.labels(), name(&["a"]));
    assert_eq!((ans[0].question.typ(), ans[0].ttl), (5, 256));
    assert_eq!(ans[0].data, vec![1, 2, 3, 4]);
    let auth = p.get_authorities();
    assert_eq!(auth.len(), 1);
    assert!(auth[0].question.labels().is_empty());
    assert_eq!((auth[0].question.typ(), auth[0].ttl), (6, 9));
    assert_eq!(auth[0].data, vec![8, 9]);
}

#[test]
fn decode_ignores_what_follows_the_counted_sections() {
    let mut bytes = vec![0u8, 7, 0, 0, 0, 0, 0, 0, 0, 0, 0, 2];
    bytes.extend_from_slice(&[0xFF; 30]);
    let p = DnsPacket::from_buf(&bytes).unwrap();
    assert_eq!(p.get_id(), 7);
    assert_eq!(p.get_ar_count(), 2);
    assert!(p.get_questions().is_empty());
}

#[test]
fn decoding_undoes_encoding() {
    let mut p = DnsPacket::new();
    p.set_id(0xBEEF);
    p.set_qr(1);
    p.set_opcode(2);
    p.set_rd(1);
    p.set_rcode(codecrafters_dns_server::packet::ResponseCodes::NameError);
    p.push_question(Question::new(name(&["example", "com"]), 1, 1));
    p.push_question(Question::new(name(&["münchen", "de"]), 28, 1));
    p.push_answer(Answer { question: Question::new(name(&["example", "com"]), 1, 1), ttl: 300, data: vec![93, 184, 216, 34] });
    p.push_authority(Answer { question: Question::new(name(&["com"]), 6, 1), ttl: 900, data: vec![0; 300] });
    let bytes = p.encode();
    let back = DnsPacket::from_buf(&bytes).unwrap();
    assert!(same_packet(&p, &back));
    let mut again = back;
    assert_eq!(again.encode(), bytes);
}

#[test]
fn decoding_undoes_encoding_of_an_empty_packet() {
    let mut p = DnsPacket::new();
    let bytes = p.encode();
    assert_eq!(bytes, vec![0u8; 12]);
    assert!(same_packet(&p, &DnsPacket::from_buf(&bytes).unwrap()));
}

#[test]
fn longest_label_reads_back() {
    let label = "a".repeat(63);
    let mut p = DnsPacket::new();
    p.push_question(Question::new(vec![label.clone()], 1, 1));
    let back = DnsPacket::from_buf(&p.encode()).unwrap();
    assert_eq!(back.get_questions()[0].labels(), vec![label]);
}

#[test]
fn pointer_is_followed_and_parsing_resumes_behind_it() {
    let mut msg = vec![0u8; 12];
    msg.extend_from_slice(&[3, b'a', b'b', b'c', 0]);
    msg.extend_from_slice(&[9, 9, 9]);
    msg.extend_from_slice(&[0xC0, 12, 0xEE]);
    let (labels, next) = decode_name(&msg, 20).unwrap();
    assert_eq!(labels, name(&["abc"]));
    assert_eq!(next, 22);
    let (labels, next) = decode_name(&msg, 12).unwrap();
    assert_eq!(labels, name(&["abc"]));
    assert_eq!(next, 17);
}

#[test]
fn labels_before_a_pointer_are_kept() {
    let mut msg = vec![0u8; 12];
    msg.extend_from_slice(&[3, b'c', b'o', b'm', 0]);
    msg.extend_from_slice(&[3, b'w', b'w', b'w', 0xC0, 12, 0, 1]);
    let (labels, next) = decode_name(&msg, 17).unwrap();
    assert_eq!(labels, name(&["www", "com"]));
    assert_eq!(next, 23);
}

#[test]
fn only_the_first_pointer_fixes_where_parsing_resumes() {
    let mut msg = vec![0u8; 12];
    msg.extend_from_slice(&[2, b'i', b'o', 0]); // 12
    msg.extend_from_slice(&[1, b'x', 0xC0, 12]); // 16
    msg.extend_from_slice(&[1, b'y', 0xC0, 16, 0xAB]); // 20
    let (labels, next) = decode_name(&msg, 20).unwrap();
    assert_eq!(labels, name(&["y", "x", "io"]));
    assert_eq!(next, 24);
}

#[test]
fn pointer_uses_fourteen_bits() {
    let mut msg = vec![7u8; 0x0123];
    msg.extend_from_slice(&[1, b'z', 0]);
    msg.extend_from_slice(&[0xC1, 0x23]);
    let (labels, next) = decode_name(&msg, 0x0126).unwrap();
    assert_eq!(labels, name(&["z"]));
    assert_eq!(next, 0x0128);
}

#[test]
fn second_question_may_point_into_the_first() {
    let mut bytes = vec![0u8, 1, 0, 0, 0, 2, 0, 0, 0, 0, 0, 0];
    bytes.extend_from_slice(&[3, b'a', b'b', b'c', 0, 0, 1, 0, 1]);
    bytes.extend_from_slice(&[0xC0, 12, 0, 2, 0, 3]);
    let p = DnsPacket::from_buf(&bytes).unwrap();
    let qs = p.get_questions();
    assert_eq!(qs.len(), 2);
    assert_eq!(qs[0].labels(), name(&["abc"]));
    assert_eq!(qs[1].labels(), name(&["abc"]));
    assert_eq!((qs[1].typ(), qs[1].class()), (2, 3));
}

#[test]
fn pointer_cycle_is_an_error() {
    let mut msg = vec![0u8; 12];
    msg.extend_from_slice(&[0xC0, 12]);
    assert!(matches!(decode_name(&msg, 12), Err(FormatError::TooManyPointers)));
    let mut msg = vec![0u8; 12];
    msg.extend_from_slice(&[1, b'x', 0xC0, 12]);
    assert!(matches!(decode_name(&msg, 12), Err(FormatError::TooManyPointers)));
}

#[test]
fn as_many_pointers_as_the_bound_are_followed() {
    // a chain of pointers, each to the one before it, ending at a name
    let mut msg = vec![1u8, b'r', 0];
    for i in 0..128usize {
        let target = if i == 0 { 0 } else { 3 + 2 * (i - 1) };
        msg.push(0xC0 | (target >> 8) as u8);
        msg.push(target as u8);
    }
    let last = 3 + 2 * 127;
    let (labels, next) = decode_name(&msg, last).unwrap();
    assert_eq!(labels, name(&["r"]));
    assert_eq!(next, last + 2);
    let target = last;
    msg.push(0xC0 | (target >> 8) as u8);
    msg.push(target as u8);
    assert!(matches!(decode_name(&msg, last + 2), Err(FormatError::TooManyPointers)));
}

#[test]
fn short_buffer_is_rejected() {
    assert!(matches!(DnsPacket::from_buf(&[0u8; 11]), Err(FormatError::TooShort)));
    assert!(matches!(DnsPacket::from_buf(&[]), Err(FormatError::TooShort)));
    assert!(DnsPacket::from_buf(&[0u8; 12]).is_ok());
}

#[test]
fn missing_entries_are_rejected() {
    let bytes = [0u8, 0, 0, 0, 0, 1, 0, 0, 0, 0, 0, 0];
    assert!(matches!(DnsPacket::from_buf(&bytes), Err(FormatError::UnexpectedEnd)));
}

#[test]
fn label_that_runs_past_the_end_is_rejected() {
    let mut bytes = vec![0u8, 0, 0, 0, 0, 1, 0, 0, 0, 0, 0, 0];
    bytes.extend_from_slice(&[5, b'a', b'b']);
    assert!(matches!(DnsPacket::from_buf(&bytes), Err(FormatError::UnexpectedEnd)));
    assert!(matches!(decode_name(&bytes, 12), Err(FormatError::UnexpectedEnd)));
    assert!(matches!(decode_name(&bytes, 400), Err(FormatError::UnexpectedEnd)));
}

#[test]
fn pointer_without_its_second_byte_is_rejected() {
    let mut bytes = vec![0u8; 12];
    bytes.push(0xC0);
    assert!(matches!(decode_name(&bytes, 12), Err(FormatError::UnexpectedEnd)));
}

#[test]
fn pointer_past_the_end_is_rejected() {
    let mut bytes = vec![0u8; 12];
    bytes.extend_from_slice(&[0xC0, 200]);
    assert!(matches!(decode_name(&bytes, 12), Err(FormatError::UnexpectedEnd)));
}

#[test]
fn question_without_type_and_class_is_rejected() {
    let mut bytes = vec![0u8, 0, 0, 0, 0, 1, 0, 0, 0, 0, 0, 0];
    bytes.extend_from_slice(&[1, b'a', 0, 0, 1, 0]);
    assert!(matches!(DnsPacket::from_buf(&bytes), Err(FormatError::UnexpectedEnd)));
}

#[test]
fn data_length_past_the_end_is_rejected() {
    let mut bytes = vec![0u8, 0, 0, 0, 0, 0, 0, 1, 0, 0, 0, 0];
    bytes.extend_from_slice(&[1, b'a', 0, 0, 1, 0, 1, 0, 0, 0, 1, 0, 5, 1, 2, 3, 4]);
    assert!(matches!(DnsPacket::from_buf(&bytes), Err(FormatError::UnexpectedEnd)));
    bytes.push(5);
    assert!(DnsPacket::from_buf(&bytes).is_ok());
}

#[test]
fn label_that_is_not_utf8_is_rejected() {
    let mut bytes = vec![0u8, 0, 0, 0, 0, 1, 0, 0, 0, 0, 0, 0];
    bytes.extend_from_slice(&[2, 0xFF, 0xFE, 0, 0, 1, 0, 1]);
    assert!(matches!(DnsPacket::from_buf(&bytes), Err(FormatError::InvalidLabel)));
    let mut bytes = vec![0u8; 12];
    bytes.extend_from_slice(&[1, 0xC3, 0]);
    assert!(matches!(decode_name(&bytes, 12), Err(FormatError::InvalidLabel)));
}

#[test]
fn label_of_several_bytes_per_character_is_read() {
    let mut bytes = vec![0u8; 12];
    bytes.extend_from_slice(&[3, 0xE2, 0x82, 0xAC, 0]);
    let (labels, next) = decode_name(&bytes, 12).unwrap();
    assert_eq!(labels, name(&["€"]));
    assert_eq!(next, 17);
}

#[test]
fn parser_can_be_run_again() {
    let mut bytes = vec![0u8, 9, 0, 0, 0, 1, 0, 0, 0, 0, 0, 0];
    bytes.extend_from_slice(&[1, b'a', 0, 0, 1, 0, 1]);
    let mut parser = Parser::new(&bytes);
    assert!(parser.parse().is_ok());
    assert!(parser.parse().is_ok());
    let p = parser.get();
    assert_eq!(p.get_questions().len(), 1);
    assert_eq!(p.get_qd_count(), 1);
    assert_eq!(p.get_id(), 9);
}

#[test]
fn parser_starts_empty() {
    let bytes = [0u8; 12];
    let p = Parser::new(&bytes).get();
    assert_eq!(p.head, [0u8; 12]);
    assert!(p.get_questions().is_empty());
}

#[test]
fn length_prefix_of_a_label_holds_eight_bits() {
    let encoded = encode_name(&vec!["a".repeat(256), "b".repeat(257)]);
    assert_eq!(encoded.len(), 1 + 256 + 1 + 257 + 1);
    assert_eq!(encoded[0], 0);
    assert_eq!(encoded[257], 1);
    assert_eq!(encoded[encoded.len() - 1], 0);
}

#[test]
fn length_prefix_of_data_holds_sixteen_bits() {
    let a = Answer { question: Question::new(vec![], 1, 1), ttl: 0, data: vec![7; 65537] };
    let encoded = a.encode();
    assert_eq!(encoded.len(), 1 + 4 + 4 + 2 + 65537);
    assert_eq!(&encoded[9..11], &[0, 1]);
}

#[test]
fn copies_are_equal_to_what_they_copy() {
    let q = Question::new(name(&["example", "com"]), 15, 1);
    assert!(same_question(&q, &q.clone()));
    let a = Answer { question: q, ttl: 9, data: vec![1, 2] };
    assert!(same_record(&a, &a.clone()));
}

#[test]
fn label_longer_than_63_bytes_does_not_read_back() {
    let mut p = DnsPacket::new();
    p.push_question(Question::new(vec!["a".repeat(64)], 1, 1));
    let bytes = p.encode();
    assert_eq!(bytes[12], 64);
    match DnsPacket::from_buf(&bytes) {
        Ok(back) => assert_ne!(back.get_questions()[0].labels(), vec!["a".repeat(64)]),
        Err(_) => {}
    }
}
