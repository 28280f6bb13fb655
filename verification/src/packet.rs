//! The message model: questions, records and whole messages, the accessors
//! of the header fields, and the encoder.

use crate::buffer_helpers::{field, BufferGetters, BufferSetters};
use crate::header::{lemma_write_then_read, HeaderField, HEADER_LEN};
pub use crate::parser::Parser;
use crate::trusted::{put_slice, put_u16, put_u32, put_u8, random_u16};
use crate::wire::{
    label_bytes, name_bytes, parse_packet, questions_bytes, records_bytes, FormatError,
    PacketView, QuestionView, RecordView,
};
use vstd::prelude::*;
use vstd::slice::slice_to_vec;

verus! {

/// The result codes that a response can carry.
#[derive(Clone, Copy, Debug, PartialEq, Eq, Structural)]
pub enum ResponseCodes {
    NoError,
    FormatError,
    ServerFailure,
    NameError,
    NotImplemented,
    Refused,
}

impl ResponseCodes {
    /// The code's number in the RCODE field.
    pub open spec fn spec_code(self) -> u8 {
        match self {
            ResponseCodes::NoError => 0,
            ResponseCodes::FormatError => 1,
            ResponseCodes::ServerFailure => 2,
            ResponseCodes::NameError => 3,
            ResponseCodes::NotImplemented => 4,
            ResponseCodes::Refused => 5,
        }
    }

    /// The code's number in the RCODE field.
    #[verifier::when_used_as_spec(spec_code)]
    pub fn code(self) -> (r: u8)
        ensures
            r == self.spec_code(),
    {
        match self {
            ResponseCodes::NoError => 0,
            ResponseCodes::FormatError => 1,
            ResponseCodes::ServerFailure => 2,
            ResponseCodes::NameError => 3,
            ResponseCodes::NotImplemented => 4,
            ResponseCodes::Refused => 5,
        }
    }
}

/// A question: a name as its labels, a type and a class.
#[derive(Debug)]
pub struct Question {
    labels: Vec<String>,
    typ: u16,
    class: u16,
}

impl View for Question {
    type V = QuestionView;

    closed spec fn view(&self) -> QuestionView {
        QuestionView { labels: self.labels.deep_view(), typ: self.typ, class: self.class }
    }
}

impl DeepView for Question {
    type V = QuestionView;

    open spec fn deep_view(&self) -> QuestionView {
        self@
    }
}

/// A copy of `labels`, string by string.
fn clone_labels(labels: &Vec<String>) -> (r: Vec<String>)
    ensures
        r.deep_view() == labels.deep_view(),
{
    let mut r: Vec<String> = Vec::new();
    let mut i: usize = 0;
    while i < labels.len()
        invariant
            i <= labels.len(),
            r.len() == i,
            forall|j: int| 0 <= j < i ==> r[j]@ == labels[j]@,
        decreases labels.len() - i,
    {
        r.push(labels[i].clone());
        i += 1;
    }
    assert(r.deep_view() =~= labels.deep_view());
    r
}

impl Clone for Question {
    fn clone(&self) -> (r: Self)
        ensures
            r@ == self@,
    {
        Question { labels: clone_labels(&self.labels), typ: self.typ, class: self.class }
    }
}

impl Question {
    /// The question for the name `labels`, with the given type and class.
    pub fn new(labels: Vec<String>, typ: u16, class: u16) -> (q: Question)
        ensures
            q@ == (QuestionView { labels: labels.deep_view(), typ, class }),
    {
        Question { labels, typ, class }
    }

    /// The labels of the name, in order.
    pub fn labels(&self) -> (r: Vec<String>)
        ensures
            r.deep_view() == self@.labels,
    {
        clone_labels(&self.labels)
    }

    /// The question's type.
    pub fn typ(&self) -> (r: u16)
        ensures
            r == self@.typ,
    {
        self.typ
    }

    /// The question's class.
    pub fn class(&self) -> (r: u16)
        ensures
            r == self@.class,
    {
        self.class
    }

    /// The question on the wire: the name, then type and class.
    pub fn encode(&self) -> (encoded: Vec<u8>)
        ensures
            encoded@ == self@.bytes(),
    {
        let mut encoded = encode_name(&self.labels);
        put_u16(&mut encoded, self.typ);
        put_u16(&mut encoded, self.class);
        encoded
    }
}

/// The name made of `labels` on the wire: each label behind a byte with its
/// length, then a zero byte. A pointer is never written.
pub fn encode_name(labels: &Vec<String>) -> (encoded: Vec<u8>)
    ensures
        encoded@ == name_bytes(labels.deep_view()),
{
    let mut encoded: Vec<u8> = Vec::new();
    let ghost all = labels.deep_view();
    let mut i: usize = 0;
    proof {
        assert(all.skip(0) =~= all);
        assert(encoded@ + name_bytes(all) =~= name_bytes(all));
    }
    while i < labels.len()
        invariant
            i <= labels.len(),
            all == labels.deep_view(),
            name_bytes(all) == encoded@ + name_bytes(all.skip(i as int)),
        decreases labels.len() - i,
    {
        let label = labels[i].as_str();
        let bytes = label.as_bytes();
        let len = bytes.len();
        proof {
            assert(all.skip(i as int).drop_first() =~= all.skip(i as int + 1));
            assert(all.skip(i as int)[0] == label@);
        }
        let ghost before = encoded@;
        put_u8(&mut encoded, (len % 256) as u8);
        put_slice(&mut encoded, bytes);
        proof {
            assert(encoded@ =~= before + label_bytes(label@));
            assert(before + label_bytes(label@) + name_bytes(all.skip(i as int + 1)) =~= before + (
            label_bytes(label@) + name_bytes(all.skip(i as int + 1))));
        }
        i += 1;
    }
    proof {
        assert(all.skip(i as int).len() == 0);
    }
    put_u8(&mut encoded, 0u8);
    encoded
}

/// A resource record.
#[derive(Debug)]
pub struct Answer {
    pub question: Question,
    pub ttl: u32,
    pub data: Vec<u8>,
}

impl View for Answer {
    type V = RecordView;

    open spec fn view(&self) -> RecordView {
        RecordView { question: self.question@, ttl: self.ttl, data: self.data@ }
    }
}

impl DeepView for Answer {
    type V = RecordView;

    open spec fn deep_view(&self) -> RecordView {
        self@
    }
}

impl Clone for Answer {
    fn clone(&self) -> (r: Self)
        ensures
            r@ == self@,
    {
        Answer {
            question: self.question.clone(),
            ttl: self.ttl,
            data: slice_to_vec(self.data.as_slice()),
        }
    }
}

impl Answer {
    /// The record on the wire: the owner as a question, the time to live, the
    /// length of the data and the data.
    pub fn encode(&self) -> (encoded: Vec<u8>)
        ensures
            encoded@ == self@.bytes(),
    {
        let mut encoded = self.question.encode();
        put_u32(&mut encoded, self.ttl);
        put_u16(&mut encoded, (self.data.len() % 65536) as u16);
        put_slice(&mut encoded, self.data.as_slice());
        encoded
    }
}

/// A message: the twelve header bytes and the question, answer and
/// authority sections.
#[derive(Debug)]
pub struct DnsPacket {
    pub head: [u8; 12],
    questions: Vec<Question>,
    answers: Vec<Answer>,
    authorities: Vec<Answer>,
}

impl View for DnsPacket {
    type V = PacketView;

    closed spec fn view(&self) -> PacketView {
        PacketView {
            head: self.head@,
            questions: self.questions.deep_view(),
            answers: self.answers.deep_view(),
            authorities: self.authorities.deep_view(),
        }
    }
}

/// A copy of `questions`, entry by entry.
fn clone_questions(questions: &Vec<Question>) -> (r: Vec<Question>)
    ensures
        r.deep_view() == questions.deep_view(),
{
    let mut r: Vec<Question> = Vec::new();
    let mut i: usize = 0;
    while i < questions.len()
        invariant
            i <= questions.len(),
            r.len() == i,
            forall|j: int| 0 <= j < i ==> r[j]@ == questions[j]@,
        decreases questions.len() - i,
    {
        r.push(questions[i].clone());
        i += 1;
    }
    assert(r.deep_view() =~= questions.deep_view());
    r
}

/// A copy of `records`, entry by entry.
fn clone_records(records: &Vec<Answer>) -> (r: Vec<Answer>)
    ensures
        r.deep_view() == records.deep_view(),
{
    let mut r: Vec<Answer> = Vec::new();
    let mut i: usize = 0;
    while i < records.len()
        invariant
            i <= records.len(),
            r.len() == i,
            forall|j: int| 0 <= j < i ==> r[j]@ == records[j]@,
        decreases records.len() - i,
    {
        r.push(records[i].clone());
        i += 1;
    }
    assert(r.deep_view() =~= records.deep_view());
    r
}

/// Appends each question's encoding to `res`.
fn encode_questions(questions: &Vec<Question>, res: &mut Vec<u8>)
    ensures
        final(res)@ == old(res)@ + questions_bytes(questions.deep_view()),
{
    let ghost all = questions.deep_view();
    let ghost start = res@;
    let mut i: usize = 0;
    proof {
        assert(all.skip(0) =~= all);
    }
    while i < questions.len()
        invariant
            i <= questions.len(),
            all == questions.deep_view(),
            start + questions_bytes(all) == res@ + questions_bytes(all.skip(i as int)),
        decreases questions.len() - i,
    {
        let mut encoded = questions[i].encode();
        proof {
            assert(all.skip(i as int).drop_first() =~= all.skip(i as int + 1));
            assert(all.skip(i as int)[0] == questions[i as int]@);
            assert(res@ + (encoded@ + questions_bytes(all.skip(i as int + 1))) =~= res@ + encoded@
                + questions_bytes(all.skip(i as int + 1)));
        }
        res.append(&mut encoded);
        i += 1;
    }
    proof {
        assert(all.skip(i as int).len() == 0);
        assert(res@ + Seq::<u8>::empty() =~= res@);
    }
}

/// Appends each record's encoding to `res`.
fn encode_records(records: &Vec<Answer>, res: &mut Vec<u8>)
    ensures
        final(res)@ == old(res)@ + records_bytes(records.deep_view()),
{
    let ghost all = records.deep_view();
    let ghost start = res@;
    let mut i: usize = 0;
    proof {
        assert(all.skip(0) =~= all);
    }
    while i < records.len()
        invariant
            i <= records.len(),
            all == records.deep_view(),
            start + records_bytes(all) == res@ + records_bytes(all.skip(i as int)),
        decreases records.len() - i,
    {
        let mut encoded = records[i].encode();
        proof {
            assert(all.skip(i as int).drop_first() =~= all.skip(i as int + 1));
            assert(all.skip(i as int)[0] == records[i as int]@);
            assert(res@ + (encoded@ + records_bytes(all.skip(i as int + 1))) =~= res@ + encoded@
                + records_bytes(all.skip(i as int + 1)));
        }
        res.append(&mut encoded);
        i += 1;
    }
    proof {
        assert(all.skip(i as int).len() == 0);
        assert(res@ + Seq::<u8>::empty() =~= res@);
    }
}

impl DnsPacket {
    /// The message with a zeroed header and no entries.
    pub fn new() -> (packet: DnsPacket)
        ensures
            packet@ == PacketView::empty(),
    {
        let packet = DnsPacket {
            head: [0; 12],
            questions: Vec::new(),
            answers: Vec::new(),
            authorities: Vec::new(),
        };
        proof {
            assert(packet@.head =~= PacketView::empty().head);
            assert(packet@.questions =~= PacketView::empty().questions);
            assert(packet@.answers =~= PacketView::empty().answers);
            assert(packet@.authorities =~= PacketView::empty().authorities);
        }
        packet
    }

    /// An empty message under `id`.
    pub fn with_id(id: u16) -> (packet: DnsPacket)
        ensures
            packet@ == PacketView::empty().with_field(HeaderField::Id, id as nat),
    {
        let mut packet = DnsPacket::new();
        packet.set_id(id);
        packet
    }

    /// An empty message under an identifier drawn at random.
    pub fn new_query() -> (packet: DnsPacket)
        ensures
            packet@ == PacketView::empty().with_field(
                HeaderField::Id,
                packet@.field(HeaderField::Id),
            ),
    {
        let id = random_u16();
        let packet = DnsPacket::with_id(id);
        proof {
            lemma_write_then_read(
                PacketView::empty().head,
                HeaderField::Id,
                id as nat,
                HeaderField::Id,
            );
        }
        packet
    }

    /// Replaces the header by the first twelve bytes of `buf`.
    pub fn copy_head_from_slice(&mut self, buf: &[u8])
        requires
            buf@.len() >= HEADER_LEN,
        ensures
            final(self)@ == old(self)@.with_head(buf@.subrange(0, HEADER_LEN as int)),
    {
        let mut i: usize = 0;
        while i < 12
            invariant
                i <= 12,
                buf@.len() >= 12,
                self.questions == old(self).questions,
                self.answers == old(self).answers,
                self.authorities == old(self).authorities,
                forall|j: int| 0 <= j < i ==> self.head@[j] == buf@[j],
            decreases 12 - i,
        {
            self.head[i] = buf[i];
            i += 1;
        }
        assert(self.head@ =~= buf@.subrange(0, HEADER_LEN as int));
    }

    /// The message that `buf` decodes to, or why it is none.
    pub fn from_buf(buf: &[u8]) -> (r: Result<DnsPacket, FormatError>)
        ensures
            match parse_packet(buf@) {
                Ok(p) => r is Ok && r->Ok_0@ == p,
                Err(e) => r == Err::<DnsPacket, FormatError>(e),
            },
    {
        let mut parser = Parser::new(buf);
        match parser.parse() {
            Err(e) => Err(e),
            Ok(()) => Ok(parser.get()),
        }
    }

    /// The identifier.
    pub fn get_id(&self) -> (r: u16)
        ensures
            r == self@.field(HeaderField::Id),
    {
        self.head.as_slice().get_u16(0)
    }

    /// QR: 0 in a query, 1 in a response.
    pub fn get_qr(&self) -> (r: u8)
        ensures
            r == self@.field(HeaderField::Qr),
    {
        self.head.as_slice().get_bit(16)
    }

    /// OPCODE: the kind of query.
    pub fn get_opcode(&self) -> (r: u8)
        ensures
            r == self@.field(HeaderField::Opcode),
    {
        self.head.as_slice().get_u4(17)
    }

    /// AA: whether the answer is authoritative.
    pub fn get_aa(&self) -> (r: u8)
        ensures
            r == self@.field(HeaderField::Aa),
    {
        self.head.as_slice().get_bit(21)
    }

    /// TC: whether the message was truncated.
    pub fn get_tc(&self) -> (r: u8)
        ensures
            r == self@.field(HeaderField::Tc),
    {
        self.head.as_slice().get_bit(22)
    }

    /// RD: whether recursion is desired.
    pub fn get_rd(&self) -> (r: u8)
        ensures
            r == self@.field(HeaderField::Rd),
    {
        self.head.as_slice().get_bit(23)
    }

    /// RA: whether recursion is available.
    pub fn get_ra(&self) -> (r: u8)
        ensures
            r == self@.field(HeaderField::Ra),
    {
        self.head.as_slice().get_bit(24)
    }

    /// The three reserved bits.
    pub fn get_z(&self) -> (r: u8)
        ensures
            r == self@.field(HeaderField::Z),
    {
        let head = self.head.as_slice();
        let b0 = head.get_bit(25);
        let b1 = head.get_bit(26);
        let b2 = head.get_bit(27);
        proof {
            reveal_with_fuel(field, 4);
        }
        4 * b0 + 2 * b1 + b2
    }

    /// RCODE: the result code.
    pub fn get_rcode(&self) -> (r: u8)
        ensures
            r == self@.field(HeaderField::Rcode),
    {
        self.head.as_slice().get_u4(28)
    }

    /// QDCOUNT, as the header holds it.
    pub fn get_qd_count(&self) -> (r: u16)
        ensures
            r == self@.field(HeaderField::QdCount),
    {
        self.head.as_slice().get_u16(32)
    }

    /// ANCOUNT, as the header holds it.
    pub fn get_an_count(&self) -> (r: u16)
        ensures
            r == self@.field(HeaderField::AnCount),
    {
        self.head.as_slice().get_u16(48)
    }

    /// NSCOUNT, as the header holds it.
    pub fn get_ns_count(&self) -> (r: u16)
        ensures
            r == self@.field(HeaderField::NsCount),
    {
        self.head.as_slice().get_u16(64)
    }

    /// ARCOUNT, as the header holds it.
    pub fn get_ar_count(&self) -> (r: u16)
        ensures
            r == self@.field(HeaderField::ArCount),
    {
        self.head.as_slice().get_u16(80)
    }

    /// Sets the identifier.
    pub fn set_id(&mut self, id: u16)
        ensures
            final(self)@ == old(self)@.with_field(HeaderField::Id, id as nat),
    {
        self.head.put_u16(0, id);
    }

    /// Sets QR to the lowest bit of `f`.
    pub fn set_qr(&mut self, f: u8)
        ensures
            final(self)@ == old(self)@.with_field(HeaderField::Qr, f as nat),
    {
        self.head.put_bit(16, f);
    }

    /// Sets OPCODE to the low four bits of `opcode`.
    pub fn set_opcode(&mut self, opcode: u8)
        ensures
            final(self)@ == old(self)@.with_field(HeaderField::Opcode, opcode as nat),
    {
        self.head.put_u4(17, opcode);
    }

    /// Sets AA to the lowest bit of `f`.
    pub fn set_aa(&mut self, f: u8)
        ensures
            final(self)@ == old(self)@.with_field(HeaderField::Aa, f as nat),
    {
        self.head.put_bit(21, f);
    }

    /// Sets TC to the lowest bit of `f`.
    pub fn set_tc(&mut self, f: u8)
        ensures
            final(self)@ == old(self)@.with_field(HeaderField::Tc, f as nat),
    {
        self.head.put_bit(22, f);
    }

    /// Sets RD to the lowest bit of `f`.
    pub fn set_rd(&mut self, f: u8)
        ensures
            final(self)@ == old(self)@.with_field(HeaderField::Rd, f as nat),
    {
        self.head.put_bit(23, f)
    }

    /// Sets RA to the lowest bit of `f`.
    pub fn set_ra(&mut self, f: u8)
        ensures
            final(self)@ == old(self)@.with_field(HeaderField::Ra, f as nat),
    {
        self.head.put_bit(24, f);
    }

    /// Sets the reserved field to the low three bits of `z`.
    pub fn set_z(&mut self, z: u8)
        ensures
            final(self)@ == old(self)@.with_field(HeaderField::Z, z as nat),
    {
        self.head.put_bit(25, z >> 2);
        self.head.put_bit(26, z >> 1);
        self.head.put_bit(27, z);
    }

    /// Sets RCODE to the number of `rcode`.
    pub fn set_rcode(&mut self, rcode: ResponseCodes)
        ensures
            final(self)@ == old(self)@.with_field(HeaderField::Rcode, rcode.spec_code() as nat),
    {
        self.head.put_u4(28, rcode.code());
    }

    /// Sets QDCOUNT, whatever the number of questions.
    pub fn set_qd_count(&mut self, count: u16)
        ensures
            final(self)@ == old(self)@.with_field(HeaderField::QdCount, count as nat),
    {
        self.head.put_u16(32, count);
    }

    /// Sets ANCOUNT, whatever the number of answers.
    pub fn set_a_count(&mut self, count: u16)
        ensures
            final(self)@ == old(self)@.with_field(HeaderField::AnCount, count as nat),
    {
        self.head.put_u16(48, count);
    }

    /// Sets NSCOUNT, whatever the number of authorities.
    pub fn set_ns_count(&mut self, count: u16)
        ensures
            final(self)@ == old(self)@.with_field(HeaderField::NsCount, count as nat),
    {
        self.head.put_u16(64, count);
    }

    /// Sets ARCOUNT. No additional record is ever held or sent.
    pub fn set_ar_count(&mut self, count: u16)
        ensures
            final(self)@ == old(self)@.with_field(HeaderField::ArCount, count as nat),
    {
        self.head.put_u16(80, count);
    }

    /// Appends the record made of `question`, `ttl` and a copy of `data` to
    /// the answers, and sets ANCOUNT to their number.
    pub fn add_answer(&mut self, question: Question, ttl: u32, data: &[u8])
        ensures
            final(self)@ == old(self)@.push_answer(
                RecordView { question: question@, ttl, data: data@ },
            ),
    {
        let answer = Answer { question, ttl, data: slice_to_vec(data) };
        self.push_answer(answer);
    }

    /// Appends `answer` to the answers and sets ANCOUNT to their number.
    pub fn push_answer(&mut self, answer: Answer)
        ensures
            final(self)@ == old(self)@.push_answer(answer@),
    {
        self.answers.push(answer);
        let count = (self.answers.len() % 65536) as u16;
        self.set_a_count(count);
        proof {
            assert(self.answers.deep_view() =~= old(self).answers.deep_view().push(answer@));
        }
    }

    /// Appends `question` to the questions and sets QDCOUNT to their number.
    pub fn push_question(&mut self, question: Question)
        ensures
            final(self)@ == old(self)@.push_question(question@),
    {
        self.questions.push(question);
        let count = (self.questions.len() % 65536) as u16;
        self.set_qd_count(count);
        proof {
            assert(self.questions.deep_view() =~= old(self).questions.deep_view().push(question@));
        }
    }

    /// Appends `authority` to the authorities and sets NSCOUNT to their
    /// number.
    pub fn push_authority(&mut self, authority: Answer)
        ensures
            final(self)@ == old(self)@.push_authority(authority@),
    {
        self.authorities.push(authority);
        let count = (self.authorities.len() % 65536) as u16;
        self.set_ns_count(count);
        proof {
            assert(self.authorities.deep_view() =~= old(self).authorities.deep_view().push(
                authority@,
            ));
        }
    }

    /// A copy of the authority section.
    pub fn get_authorities(&self) -> (r: Vec<Answer>)
        ensures
            r.deep_view() == self@.authorities,
    {
        clone_records(&self.authorities)
    }

    /// A copy of the question section.
    pub fn get_questions(&self) -> (r: Vec<Question>)
        ensures
            r.deep_view() == self@.questions,
    {
        clone_questions(&self.questions)
    }

    /// A copy of the answer section.
    pub fn get_answers(&self) -> (r: Vec<Answer>)
        ensures
            r.deep_view() == self@.answers,
    {
        clone_records(&self.answers)
    }

    /// The message on the wire. The three section counts are first set from
    /// the sections, so that the header sent agrees with what follows it.
    pub fn encode(&mut self) -> (res: Vec<u8>)
        ensures
            final(self)@ == old(self)@.with_head(old(self)@.wire_head()),
            res@ == old(self)@.bytes(),
    {
        let qd = (self.questions.len() % 65536) as u16;
        let an = (self.answers.len() % 65536) as u16;
        let ns = (self.authorities.len() % 65536) as u16;
        self.set_qd_count(qd);
        self.set_a_count(an);
        self.set_ns_count(ns);
        let mut res = slice_to_vec(self.head.as_slice());
        encode_questions(&self.questions, &mut res);
        encode_records(&self.answers, &mut res);
        encode_records(&self.authorities, &mut res);
        res
    }
}

} // verus!
