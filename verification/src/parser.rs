//! The decoder: a cursor over a byte buffer that reads a message section by
//! section and never reads outside the buffer.

use crate::buffer_helpers::{lemma_field_u16, lemma_with_u16_same, with_u16, BufferGetters};
use crate::header::{HeaderField, HEADER_LEN};
use crate::packet::{Answer, DnsPacket, Question};
use crate::trusted::string_from_utf8;
use crate::wire::{
    name_step, parse_name, parse_packet, parse_question, parse_questions, parse_record,
    parse_records, u16_at, u32_at, FormatError, NameStep, PacketView, QuestionView, RecordView,
    MAX_LABEL_LEN, MAX_POINTER_HOPS,
};
use vstd::prelude::*;
use vstd::slice::{axiom_spec_len, slice_subrange, slice_to_vec};
use vstd::utf8::{decode_utf8, valid_utf8};

verus! {

/// What the cursor found where a label is expected.
enum Label {
    /// The zero byte that closes a name.
    End,
    /// A label.
    Text(String),
    /// A compression pointer to this offset of the message.
    Pointer(usize),
}

/// A cursor over a buffer, and the message read from it so far.
pub struct Parser<'a> {
    buf: &'a [u8],
    cur: usize,
    packet: DnsPacket,
}

/// What a name reads as, given the labels already read (`done`), the
/// position fixed by a first pointer, if one was met (`resume`), and what
/// the rest reads as.
spec fn finish_name(
    done: Seq<Seq<char>>,
    resume: Option<usize>,
    rest: Result<(Seq<Seq<char>>, int), FormatError>,
) -> Result<(Seq<Seq<char>>, int), FormatError> {
    match rest {
        Err(e) => Err(e),
        Ok((labels, end)) => Ok(
            (
                done + labels,
                match resume {
                    Some(p) => p as int,
                    None => end,
                },
            ),
        ),
    }
}

/// What a run of questions reads as, given those already read.
spec fn finish_questions(
    done: Seq<QuestionView>,
    rest: Result<(Seq<QuestionView>, int), FormatError>,
) -> Result<(Seq<QuestionView>, int), FormatError> {
    match rest {
        Err(e) => Err(e),
        Ok((more, end)) => Ok((done + more, end)),
    }
}

/// What a run of records reads as, given those already read.
spec fn finish_records(
    done: Seq<RecordView>,
    rest: Result<(Seq<RecordView>, int), FormatError>,
) -> Result<(Seq<RecordView>, int), FormatError> {
    match rest {
        Err(e) => Err(e),
        Ok((more, end)) => Ok((done + more, end)),
    }
}

impl<'a> Parser<'a> {
    /// The buffer that is read.
    pub closed spec fn input(&self) -> Seq<u8> {
        self.buf@
    }

    /// The message read so far.
    pub closed spec fn packet(&self) -> PacketView {
        self.packet@
    }

    /// A parser at the start of `buf`, with an empty message.
    pub fn new(buf: &'a [u8]) -> (parser: Parser<'a>)
        ensures
            parser.input() == buf@,
            parser.packet() == PacketView::empty(),
    {
        Parser { buf, cur: 0, packet: DnsPacket::new() }
    }

    /// A parser at the offset `start` of `buf`, with an empty message.
    fn at(buf: &'a [u8], start: usize) -> (parser: Parser<'a>)
        ensures
            parser.buf@ == buf@,
            parser.cur == start,
    {
        Parser { buf, cur: start, packet: DnsPacket::new() }
    }

    /// Reads the whole buffer as a message, whatever was read before. Where
    /// the buffer is no message, the parser is left with an empty one.
    pub fn parse(&mut self) -> (r: Result<(), FormatError>)
        ensures
            final(self).input() == old(self).input(),
            match parse_packet(old(self).input()) {
                Ok(p) => r is Ok && final(self).packet() == p,
                Err(e) => r == Err::<(), FormatError>(e) && final(self).packet()
                    == PacketView::empty(),
            },
    {
        self.packet = DnsPacket::new();
        if self.buf.len() < 12 {
            return Err(FormatError::TooShort);
        }
        self.packet.copy_head_from_slice(self.buf);
        self.cur = 12;
        let read = match self.parse_questions() {
            Err(e) => Err(e),
            Ok(()) => match self.parse_answers() {
                Err(e) => Err(e),
                Ok(()) => self.parse_authorities(),
            },
        };
        if read.is_err() {
            self.packet = DnsPacket::new();
        }
        read
    }

    /// The message read.
    pub fn get(self) -> (packet: DnsPacket)
        ensures
            packet@ == self.packet(),
    {
        self.packet
    }

    /// Reads as many answers as ANCOUNT says and appends them.
    fn parse_answers(&mut self) -> (r: Result<(), FormatError>)
        requires
            old(self).packet@.head.len() == HEADER_LEN,
            old(self).packet@.answers.len() == 0,
        ensures
            final(self).buf@ == old(self).buf@,
            match parse_records(
                old(self).buf@,
                old(self).cur as int,
                old(self).packet@.field(HeaderField::AnCount),
            ) {
                Ok((records, end)) => r is Ok && final(self).cur == end && final(self).packet@ == (
                    PacketView { answers: records, ..old(self).packet@ }),
                Err(e) => r == Err::<(), FormatError>(e),
            },
    {
        let count = self.packet.get_an_count();
        let ghost msg = self.buf@;
        let ghost start = self.cur as int;
        let ghost before = self.packet@;
        let mut i: u16 = 0;
        proof {
            lemma_field_u16(before.head, 6);
            assert(Seq::<RecordView>::empty() + parse_records(msg, start, count as nat)->Ok_0.0
                =~= parse_records(msg, start, count as nat)->Ok_0.0);
        }
        while i < count
            invariant
                i <= count,
                self.buf@ == msg,
                msg == old(self).buf@,
                start == old(self).cur,
                before == old(self).packet@,
                before.head.len() == HEADER_LEN,
                count == before.field(HeaderField::AnCount),
                self.packet@.answers.len() == i,
                self.packet@ == (PacketView {
                    head: if i == 0 {
                        before.head
                    } else {
                        with_u16(before.head, 6, i)
                    },
                    answers: self.packet@.answers,
                    ..before
                }),
                parse_records(msg, start, count as nat) == finish_records(
                    self.packet@.answers,
                    parse_records(msg, self.cur as int, (count - i) as nat),
                ),
            decreases count - i,
        {
            let ghost done = self.packet@.answers;
            match self.parse_record() {
                Err(e) => {
                    return Err(e);
                },
                Ok(ans) => {
                    self.packet.push_answer(ans);
                    proof {
                        let rest = parse_records(msg, self.cur as int, (count - i - 1) as nat);
                        if rest is Ok {
                            assert(done + (seq![ans@] + rest->Ok_0.0) =~= done.push(ans@)
                                + rest->Ok_0.0);
                        }
                        assert(with_u16(
                            if i == 0 {
                                before.head
                            } else {
                                with_u16(before.head, 6, i)
                            },
                            6,
                            (i + 1) as u16,
                        ) =~= with_u16(before.head, 6, (i + 1) as u16));
                    }
                },
            }
            i += 1;
        }
        proof {
            if count > 0 {
                lemma_with_u16_same(before.head, 6, count);
            }
            assert(self.packet@.answers + Seq::<RecordView>::empty() =~= self.packet@.answers);
        }
        Ok(())
    }

    /// Reads one record: the owner, the time to live, the length of the data
    /// and the data.
    fn parse_record(&mut self) -> (r: Result<Answer, FormatError>)
        ensures
            final(self).buf@ == old(self).buf@,
            final(self).packet == old(self).packet,
            match parse_record(old(self).buf@, old(self).cur as int) {
                Ok((record, end)) => r is Ok && r->Ok_0@ == record && final(self).cur == end,
                Err(e) => r == Err::<Answer, FormatError>(e),
            },
    {
        let question = match self.parse_question() {
            Err(e) => {
                return Err(e);
            },
            Ok(q) => q,
        };
        let ttl = match self.get_u32() {
            Err(e) => {
                return Err(e);
            },
            Ok(v) => v,
        };
        let data_len = match self.get_u16() {
            Err(e) => {
                return Err(e);
            },
            Ok(v) => v,
        };
        let data = match self.get_slice(data_len as usize) {
            Err(e) => {
                return Err(e);
            },
            Ok(s) => slice_to_vec(s),
        };
        Ok(Answer { question, ttl, data })
    }

    /// Reads as many questions as QDCOUNT says and appends them.
    fn parse_questions(&mut self) -> (r: Result<(), FormatError>)
        requires
            old(self).packet@.head.len() == HEADER_LEN,
            old(self).packet@.questions.len() == 0,
        ensures
            final(self).buf@ == old(self).buf@,
            match parse_questions(
                old(self).buf@,
                old(self).cur as int,
                old(self).packet@.field(HeaderField::QdCount),
            ) {
                Ok((questions, end)) => r is Ok && final(self).cur == end && final(self).packet@
                    == (PacketView { questions, ..old(self).packet@ }),
                Err(e) => r == Err::<(), FormatError>(e),
            },
    {
        let count = self.packet.get_qd_count();
        let ghost msg = self.buf@;
        let ghost start = self.cur as int;
        let ghost before = self.packet@;
        let mut i: u16 = 0;
        proof {
            lemma_field_u16(before.head, 4);
            assert(Seq::<QuestionView>::empty() + parse_questions(msg, start, count as nat)->Ok_0.0
                =~= parse_questions(msg, start, count as nat)->Ok_0.0);
        }
        while i < count
            invariant
                i <= count,
                self.buf@ == msg,
                msg == old(self).buf@,
                start == old(self).cur,
                before == old(self).packet@,
                before.head.len() == HEADER_LEN,
                count == before.field(HeaderField::QdCount),
                self.packet@.questions.len() == i,
                self.packet@ == (PacketView {
                    head: if i == 0 {
                        before.head
                    } else {
                        with_u16(before.head, 4, i)
                    },
                    questions: self.packet@.questions,
                    ..before
                }),
                parse_questions(msg, start, count as nat) == finish_questions(
                    self.packet@.questions,
                    parse_questions(msg, self.cur as int, (count - i) as nat),
                ),
            decreases count - i,
        {
            let ghost done = self.packet@.questions;
            match self.parse_question() {
                Err(e) => {
                    return Err(e);
                },
                Ok(question) => {
                    self.packet.push_question(question);
                    proof {
                        let rest = parse_questions(msg, self.cur as int, (count - i - 1) as nat);
                        if rest is Ok {
                            assert(done + (seq![question@] + rest->Ok_0.0) =~= done.push(question@)
                                + rest->Ok_0.0);
                        }
                        assert(with_u16(
                            if i == 0 {
                                before.head
                            } else {
                                with_u16(before.head, 4, i)
                            },
                            4,
                            (i + 1) as u16,
                        ) =~= with_u16(before.head, 4, (i + 1) as u16));
                    }
                },
            }
            i += 1;
        }
        proof {
            if count > 0 {
                lemma_with_u16_same(before.head, 4, count);
            }
            assert(self.packet@.questions + Seq::<QuestionView>::empty()
                =~= self.packet@.questions);
        }
        Ok(())
    }

    /// Reads as many authorities as NSCOUNT says and appends them.
    fn parse_authorities(&mut self) -> (r: Result<(), FormatError>)
        requires
            old(self).packet@.head.len() == HEADER_LEN,
            old(self).packet@.authorities.len() == 0,
        ensures
            final(self).buf@ == old(self).buf@,
            match parse_records(
                old(self).buf@,
                old(self).cur as int,
                old(self).packet@.field(HeaderField::NsCount),
            ) {
                Ok((records, end)) => r is Ok && final(self).cur == end && final(self).packet@ == (
                    PacketView { authorities: records, ..old(self).packet@ }),
                Err(e) => r == Err::<(), FormatError>(e),
            },
    {
        let count = self.packet.get_ns_count();
        let ghost msg = self.buf@;
        let ghost start = self.cur as int;
        let ghost before = self.packet@;
        let mut i: u16 = 0;
        proof {
            lemma_field_u16(before.head, 8);
            assert(Seq::<RecordView>::empty() + parse_records(msg, start, count as nat)->Ok_0.0
                =~= parse_records(msg, start, count as nat)->Ok_0.0);
        }
        while i < count
            invariant
                i <= count,
                self.buf@ == msg,
                msg == old(self).buf@,
                start == old(self).cur,
                before == old(self).packet@,
                before.head.len() == HEADER_LEN,
                count == before.field(HeaderField::NsCount),
                self.packet@.authorities.len() == i,
                self.packet@ == (PacketView {
                    head: if i == 0 {
                        before.head
                    } else {
                        with_u16(before.head, 8, i)
                    },
                    authorities: self.packet@.authorities,
                    ..before
                }),
                parse_records(msg, start, count as nat) == finish_records(
                    self.packet@.authorities,
                    parse_records(msg, self.cur as int, (count - i) as nat),
                ),
            decreases count - i,
        {
            let ghost done = self.packet@.authorities;
            match self.parse_record() {
                Err(e) => {
                    return Err(e);
                },
                Ok(authority) => {
                    self.packet.push_authority(authority);
                    proof {
                        let rest = parse_records(msg, self.cur as int, (count - i - 1) as nat);
                        if rest is Ok {
                            assert(done + (seq![authority@] + rest->Ok_0.0) =~= done.push(
                                authority@,
                            ) + rest->Ok_0.0);
                        }
                        assert(with_u16(
                            if i == 0 {
                                before.head
                            } else {
                                with_u16(before.head, 8, i)
                            },
                            8,
                            (i + 1) as u16,
                        ) =~= with_u16(before.head, 8, (i + 1) as u16));
                    }
                },
            }
            i += 1;
        }
        proof {
            if count > 0 {
                lemma_with_u16_same(before.head, 8, count);
            }
            assert(self.packet@.authorities + Seq::<RecordView>::empty()
                =~= self.packet@.authorities);
        }
        Ok(())
    }

    /// Reads one question: a name, then type and class.
    fn parse_question(&mut self) -> (r: Result<Question, FormatError>)
        ensures
            final(self).buf@ == old(self).buf@,
            final(self).packet == old(self).packet,
            match parse_question(old(self).buf@, old(self).cur as int) {
                Ok((question, end)) => r is Ok && r->Ok_0@ == question && final(self).cur == end,
                Err(e) => r == Err::<Question, FormatError>(e),
            },
    {
        let labels = match self.parse_labels() {
            Err(e) => {
                return Err(e);
            },
            Ok(labels) => labels,
        };
        let typ = match self.get_u16() {
            Err(e) => {
                return Err(e);
            },
            Ok(v) => v,
        };
        let class = match self.get_u16() {
            Err(e) => {
                return Err(e);
            },
            Ok(v) => v,
        };
        Ok(Question::new(labels, typ, class))
    }

    /// Reads a name. A pointer moves the cursor to its target; when the name
    /// ends, the cursor goes back behind the first pointer met.
    fn parse_labels(&mut self) -> (r: Result<Vec<String>, FormatError>)
        ensures
            final(self).buf@ == old(self).buf@,
            final(self).packet == old(self).packet,
            match parse_name(old(self).buf@, old(self).cur as int, MAX_POINTER_HOPS as nat) {
                Ok((labels, end)) => r is Ok && r->Ok_0.deep_view() == labels && final(self).cur
                    == end,
                Err(e) => r == Err::<Vec<String>, FormatError>(e),
            },
    {
        let mut labels: Vec<String> = Vec::new();
        let mut labels_end_position: Option<usize> = None;
        let mut hops: usize = 0;
        let ghost msg = self.buf@;
        let ghost start = self.cur as int;
        proof {
            let whole = parse_name(msg, start, MAX_POINTER_HOPS as nat);
            if whole is Ok {
                assert(labels.deep_view() + whole->Ok_0.0 =~= whole->Ok_0.0);
            }
        }
        loop
            invariant
                self.buf@ == msg,
                msg == old(self).buf@,
                start == old(self).cur,
                self.packet == old(self).packet,
                hops <= MAX_POINTER_HOPS,
                parse_name(msg, start, MAX_POINTER_HOPS as nat) == finish_name(
                    labels.deep_view(),
                    labels_end_position,
                    parse_name(msg, self.cur as int, (MAX_POINTER_HOPS - hops) as nat),
                ),
            decreases MAX_POINTER_HOPS - hops, msg.len() - self.cur,
        {
            let ghost done = labels.deep_view();
            match self.parse_label() {
                Err(e) => {
                    return Err(e);
                },
                Ok(Label::End) => {
                    match labels_end_position {
                        Some(end_position) => {
                            self.cur = end_position;
                        },
                        None => {},
                    }
                    proof {
                        assert(done + Seq::<Seq<char>>::empty() =~= done);
                    }
                    return Ok(labels);
                },
                Ok(Label::Text(label)) => {
                    labels.push(label);
                    proof {
                        let rest = parse_name(
                            msg,
                            self.cur as int,
                            (MAX_POINTER_HOPS - hops) as nat,
                        );
                        assert(labels.deep_view() =~= done.push(label@));
                        if rest is Ok {
                            assert(done + (seq![label@] + rest->Ok_0.0) =~= done.push(label@)
                                + rest->Ok_0.0);
                        }
                    }
                },
                Ok(Label::Pointer(target)) => {
                    if hops >= MAX_POINTER_HOPS {
                        return Err(FormatError::TooManyPointers);
                    }
                    match labels_end_position {
                        Some(_) => {},
                        None => {
                            labels_end_position = Some(self.cur);
                        },
                    }
                    self.cur = target;
                    hops += 1;
                },
            }
        }
    }

    /// Reads a length byte and what belongs to it: nothing after a zero, the
    /// label after a length up to 63, the second byte of a pointer otherwise.
    fn parse_label(&mut self) -> (r: Result<Label, FormatError>)
        ensures
            final(self).buf@ == old(self).buf@,
            final(self).packet == old(self).packet,
            match name_step(old(self).buf@, old(self).cur as int) {
                Ok(NameStep::End { next }) => r == Ok::<Label, FormatError>(Label::End)
                    && final(self).cur == next,
                Ok(NameStep::Label { label, next }) => r matches Ok(Label::Text(s)) && s@ == label
                    && final(self).cur == next,
                Ok(NameStep::Pointer { target, next }) => r == Ok::<Label, FormatError>(
                    Label::Pointer(target as usize),
                ) && final(self).cur == next && target < 0x4000,
                Err(e) => r == Err::<Label, FormatError>(e),
            },
    {
        let len = match self.get_u8() {
            Err(e) => {
                return Err(e);
            },
            Ok(v) => v,
        };
        if len == 0 {
            return Ok(Label::End);
        }
        if len > MAX_LABEL_LEN {
            let low = match self.get_u8() {
                Err(e) => {
                    return Err(e);
                },
                Ok(v) => v,
            };
            proof {
                assert(((len & 0b00111111) as u16) << 8 == (len % 64) as u16 * 0x100 && (len % 64)
                    as u16 * 0x100 <= 0x3F00) by (bit_vector);
            }
            let pointer = ((((len & 0b00111111) as u16) << 8) + low as u16) as usize;
            return Ok(Label::Pointer(pointer));
        }
        match self.parse_string(len as usize) {
            Err(e) => Err(e),
            Ok(label) => Ok(Label::Text(label)),
        }
    }

    /// Reads `len` bytes as a string.
    fn parse_string(&mut self, len: usize) -> (r: Result<String, FormatError>)
        requires
            old(self).cur <= old(self).buf@.len(),
        ensures
            final(self).buf@ == old(self).buf@,
            final(self).packet == old(self).packet,
            old(self).cur + len > old(self).buf@.len() ==> r == Err::<String, FormatError>(
                FormatError::UnexpectedEnd,
            ),
            old(self).cur + len <= old(self).buf@.len() && !valid_utf8(
                old(self).buf@.subrange(old(self).cur as int, old(self).cur + len),
            ) ==> r == Err::<String, FormatError>(FormatError::InvalidLabel),
            old(self).cur + len <= old(self).buf@.len() && valid_utf8(
                old(self).buf@.subrange(old(self).cur as int, old(self).cur + len),
            ) ==> r is Ok && r->Ok_0@ == decode_utf8(
                old(self).buf@.subrange(old(self).cur as int, old(self).cur + len),
            ) && final(self).cur == old(self).cur + len,
    {
        let bytes = match self.get_slice(len) {
            Err(e) => {
                return Err(e);
            },
            Ok(s) => slice_to_vec(s),
        };
        match string_from_utf8(bytes) {
            Some(s) => Ok(s),
            None => Err(FormatError::InvalidLabel),
        }
    }

    /// Reads one byte.
    fn get_u8(&mut self) -> (r: Result<u8, FormatError>)
        ensures
            final(self).buf@ == old(self).buf@,
            final(self).packet == old(self).packet,
            old(self).cur < old(self).buf@.len() ==> r == Ok::<u8, FormatError>(
                old(self).buf@[old(self).cur as int],
            ) && final(self).cur == old(self).cur + 1,
            old(self).cur >= old(self).buf@.len() ==> r == Err::<u8, FormatError>(
                FormatError::UnexpectedEnd,
            ),
    {
        if self.cur >= self.buf.len() {
            return Err(FormatError::UnexpectedEnd);
        }
        self.forward();
        Ok(self.buf[self.cur - 1])
    }

    /// Reads two bytes as a big-endian number.
    fn get_u16(&mut self) -> (r: Result<u16, FormatError>)
        ensures
            final(self).buf@ == old(self).buf@,
            final(self).packet == old(self).packet,
            old(self).cur + 2 <= old(self).buf@.len() ==> r == Ok::<u16, FormatError>(
                u16_at(old(self).buf@, old(self).cur as int),
            ) && final(self).cur == old(self).cur + 2,
            old(self).cur + 2 > old(self).buf@.len() ==> r == Err::<u16, FormatError>(
                FormatError::UnexpectedEnd,
            ),
    {
        match self.get_slice(2) {
            Err(e) => Err(e),
            Ok(s) => Ok(s.get_u16(0)),
        }
    }

    /// Reads four bytes as a big-endian number.
    fn get_u32(&mut self) -> (r: Result<u32, FormatError>)
        ensures
            final(self).buf@ == old(self).buf@,
            final(self).packet == old(self).packet,
            old(self).cur + 4 <= old(self).buf@.len() ==> r == Ok::<u32, FormatError>(
                u32_at(old(self).buf@, old(self).cur as int),
            ) && final(self).cur == old(self).cur + 4,
            old(self).cur + 4 > old(self).buf@.len() ==> r == Err::<u32, FormatError>(
                FormatError::UnexpectedEnd,
            ),
    {
        match self.get_slice(4) {
            Err(e) => Err(e),
            Ok(s) => Ok(s.get_u32(0)),
        }
    }

    /// Reads `len` bytes.
    fn get_slice(&mut self, len: usize) -> (r: Result<&'a [u8], FormatError>)
        ensures
            final(self).buf@ == old(self).buf@,
            final(self).packet == old(self).packet,
            old(self).cur + len <= old(self).buf@.len() ==> r is Ok && r->Ok_0@
                == old(self).buf@.subrange(old(self).cur as int, old(self).cur + len)
                && final(self).cur == old(self).cur + len,
            old(self).cur + len > old(self).buf@.len() ==> r == Err::<&[u8], FormatError>(
                FormatError::UnexpectedEnd,
            ),
    {
        if self.cur > self.buf.len() || len > self.buf.len() - self.cur {
            return Err(FormatError::UnexpectedEnd);
        }
        let slice = slice_subrange(self.buf, self.cur, self.cur + len);
        self.cur += len;
        Ok(slice)
    }

    /// Moves the cursor one byte on.
    fn forward(&mut self)
        requires
            old(self).cur < old(self).buf@.len(),
        ensures
            final(self).buf@ == old(self).buf@,
            final(self).packet == old(self).packet,
            final(self).cur == old(self).cur + 1,
    {
        proof {
            axiom_spec_len(self.buf);
        }
        self.cur += 1;
    }
}

/// Reads the name that starts at the offset `start` of `message`, with
/// compression pointers resolved. Gives the labels and the offset at which
/// whatever follows the name stands: behind the closing zero byte, or behind
/// the first pointer where the name holds one.
pub fn decode_name(message: &[u8], start: usize) -> (r: Result<(Vec<String>, usize), FormatError>)
    ensures
        match parse_name(message@, start as int, MAX_POINTER_HOPS as nat) {
            Ok((labels, next)) => r is Ok && r->Ok_0.0.deep_view() == labels && r->Ok_0.1 == next,
            Err(e) => r == Err::<(Vec<String>, usize), FormatError>(e),
        },
{
    let mut parser = Parser::at(message, start);
    match parser.parse_labels() {
        Err(e) => Err(e),
        Ok(labels) => Ok((labels, parser.cur)),
    }
}

} // verus!
