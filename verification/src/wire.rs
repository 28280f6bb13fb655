//! The wire format of DNS messages, as mathematics: what a question, a
//! record and a whole message look like in bytes, and what a byte buffer
//! decodes to.
//!
//! Names are written as length-prefixed labels closed by a zero byte. They are
//! read with compression pointers resolved: a length byte above 63 and the
//! byte after it hold an offset into the message at which reading goes on,
//! while whatever follows the name is taken from just behind the pointer.

use crate::buffer_helpers::{bit_at, field, with_u16};
use crate::header::{header_field, lemma_write_then_read, with_field, HeaderField, HEADER_LEN};
use vstd::prelude::*;
use vstd::utf8::{decode_utf8, encode_utf8, valid_utf8};

verus! {

/// The largest length of a label on the wire.
pub const MAX_LABEL_LEN: u8 = 63;

/// How many compression pointers are followed while one name is read.
pub const MAX_POINTER_HOPS: usize = 128;

/// Why a buffer is no DNS message.
#[derive(Clone, Copy, Debug, PartialEq, Eq, Structural)]
pub enum FormatError {
    /// The buffer is shorter than a header.
    TooShort,
    /// A length, a pointer or a fixed-size field reaches past the end of the
    /// buffer.
    UnexpectedEnd,
    /// A label is not valid UTF-8.
    InvalidLabel,
    /// A name holds more compression pointers than are followed.
    TooManyPointers,
}

/// A question: a name, a type and a class.
pub struct QuestionView {
    pub labels: Seq<Seq<char>>,
    pub typ: u16,
    pub class: u16,
}

/// A resource record: the question-shaped owner, a time to live and opaque
/// data.
pub struct RecordView {
    pub question: QuestionView,
    pub ttl: u32,
    pub data: Seq<u8>,
}

/// A message: the header bytes and the three sections.
pub struct PacketView {
    pub head: Seq<u8>,
    pub questions: Seq<QuestionView>,
    pub answers: Seq<RecordView>,
    pub authorities: Seq<RecordView>,
}

/// A section count as the header holds it: the length, cut to sixteen bits.
pub open spec fn count_of(len: nat) -> u16 {
    (len % 0x1_0000) as u16
}

/// The two bytes of `v`, most significant first.
pub open spec fn be16(v: u16) -> Seq<u8> {
    seq![(v / 0x100) as u8, (v % 0x100) as u8]
}

/// The four bytes of `v`, most significant first.
pub open spec fn be32(v: u32) -> Seq<u8> {
    seq![
        (v / 0x100_0000) as u8,
        (v / 0x1_0000 % 0x100) as u8,
        (v / 0x100 % 0x100) as u8,
        (v % 0x100) as u8,
    ]
}

/// The big-endian number in the two bytes of `msg` from `pos`.
pub open spec fn u16_at(msg: Seq<u8>, pos: int) -> u16 {
    (0x100 * msg[pos] + msg[pos + 1]) as u16
}

/// The big-endian number in the four bytes of `msg` from `pos`.
pub open spec fn u32_at(msg: Seq<u8>, pos: int) -> u32 {
    (0x100_0000 * msg[pos] + 0x1_0000 * msg[pos + 1] + 0x100 * msg[pos + 2] + msg[pos + 3]) as u32
}

/// A label on the wire: one byte with its length in bytes, cut to eight
/// bits, then its UTF-8 bytes.
pub open spec fn label_bytes(label: Seq<char>) -> Seq<u8> {
    seq![(encode_utf8(label).len() % 0x100) as u8] + encode_utf8(label)
}

/// A name on the wire: its labels in order, then a zero byte. No pointer is
/// ever written.
pub open spec fn name_bytes(labels: Seq<Seq<char>>) -> Seq<u8>
    decreases labels.len(),
{
    if labels.len() == 0 {
        seq![0u8]
    } else {
        label_bytes(labels[0]) + name_bytes(labels.drop_first())
    }
}

/// Whether each of `labels` takes between 1 and 63 bytes, so that the name
/// reads back as it was written.
pub open spec fn valid_labels(labels: Seq<Seq<char>>) -> bool {
    forall|i: int|
        0 <= i < labels.len() ==> 1 <= (#[trigger] encode_utf8(labels[i])).len() <= MAX_LABEL_LEN
}

impl QuestionView {
    /// The question on the wire: name, type, class.
    pub open spec fn bytes(self) -> Seq<u8> {
        name_bytes(self.labels) + be16(self.typ) + be16(self.class)
    }

    /// Whether the name reads back as it was written.
    pub open spec fn valid(self) -> bool {
        valid_labels(self.labels)
    }
}

impl RecordView {
    /// The record on the wire: owner, time to live, the data's length cut to
    /// sixteen bits, the data.
    pub open spec fn bytes(self) -> Seq<u8> {
        self.question.bytes() + be32(self.ttl) + be16(count_of(self.data.len())) + self.data
    }

    /// Whether the owner is valid and the data's length fits its prefix.
    pub open spec fn valid(self) -> bool {
        self.question.valid() && self.data.len() <= 0xFFFF
    }
}

/// The questions of a section on the wire, one after the other.
pub open spec fn questions_bytes(questions: Seq<QuestionView>) -> Seq<u8>
    decreases questions.len(),
{
    if questions.len() == 0 {
        Seq::empty()
    } else {
        questions[0].bytes() + questions_bytes(questions.drop_first())
    }
}

/// The records of a section on the wire, one after the other.
pub open spec fn records_bytes(records: Seq<RecordView>) -> Seq<u8>
    decreases records.len(),
{
    if records.len() == 0 {
        Seq::empty()
    } else {
        records[0].bytes() + records_bytes(records.drop_first())
    }
}

impl PacketView {
    /// The message with a zeroed header and no entries.
    pub open spec fn empty() -> PacketView {
        PacketView {
            head: Seq::new(HEADER_LEN as nat, |i: int| 0u8),
            questions: Seq::empty(),
            answers: Seq::empty(),
            authorities: Seq::empty(),
        }
    }

    /// The number in the header field `f`.
    pub open spec fn field(self, f: HeaderField) -> nat {
        header_field(self.head, f)
    }

    /// The message with `head` for its header.
    pub open spec fn with_head(self, head: Seq<u8>) -> PacketView {
        PacketView { head, ..self }
    }

    /// The message with the header field `f` set to `value`.
    pub open spec fn with_field(self, f: HeaderField, value: nat) -> PacketView {
        self.with_head(with_field(self.head, f, value))
    }

    /// The message with `q` appended to its questions and QDCOUNT set to
    /// their number.
    pub open spec fn push_question(self, q: QuestionView) -> PacketView {
        PacketView {
            head: with_u16(self.head, 4, count_of(self.questions.len() + 1)),
            questions: self.questions.push(q),
            ..self
        }
    }

    /// The message with `r` appended to its answers and ANCOUNT set to their
    /// number.
    pub open spec fn push_answer(self, r: RecordView) -> PacketView {
        PacketView {
            head: with_u16(self.head, 6, count_of(self.answers.len() + 1)),
            answers: self.answers.push(r),
            ..self
        }
    }

    /// The message with `r` appended to its authorities and NSCOUNT set to
    /// their number.
    pub open spec fn push_authority(self, r: RecordView) -> PacketView {
        PacketView {
            head: with_u16(self.head, 8, count_of(self.authorities.len() + 1)),
            authorities: self.authorities.push(r),
            ..self
        }
    }

    /// Whether the three section counts of the header are the lengths of the
    /// sections.
    pub open spec fn counts_match(self) -> bool {
        &&& self.head.len() == HEADER_LEN
        &&& self.field(HeaderField::QdCount) == self.questions.len()
        &&& self.field(HeaderField::AnCount) == self.answers.len()
        &&& self.field(HeaderField::NsCount) == self.authorities.len()
    }

    /// The header as it is sent: the three section counts are taken from the
    /// sections, the rest from the stored header.
    pub open spec fn wire_head(self) -> Seq<u8> {
        with_u16(
            with_u16(
                with_u16(self.head, 4, count_of(self.questions.len())),
                6,
                count_of(self.answers.len()),
            ),
            8,
            count_of(self.authorities.len()),
        )
    }

    /// The message on the wire: the header, then questions, answers and
    /// authorities. Additional records are never written.
    pub open spec fn bytes(self) -> Seq<u8> {
        self.wire_head() + questions_bytes(self.questions) + records_bytes(self.answers)
            + records_bytes(self.authorities)
    }

    /// Whether the message reads back as it was written: every entry is
    /// valid and every section's length fits its count.
    pub open spec fn valid(self) -> bool {
        &&& self.head.len() == HEADER_LEN
        &&& self.questions.len() <= 0xFFFF
        &&& self.answers.len() <= 0xFFFF
        &&& self.authorities.len() <= 0xFFFF
        &&& forall|i: int| 0 <= i < self.questions.len() ==> (#[trigger] self.questions[i]).valid()
        &&& forall|i: int| 0 <= i < self.answers.len() ==> (#[trigger] self.answers[i]).valid()
        &&& forall|i: int|
            0 <= i < self.authorities.len() ==> (#[trigger] self.authorities[i]).valid()
    }
}

/// What stands at one position of a name.
pub enum NameStep {
    /// The zero byte that closes the name.
    End { next: int },
    /// A label, and where the next length byte stands.
    Label { label: Seq<char>, next: int },
    /// A compression pointer: where reading goes on, and where the pointer
    /// ends.
    Pointer { target: int, next: int },
}

/// Reads the length byte at `pos` and what belongs to it.
pub open spec fn name_step(msg: Seq<u8>, pos: int) -> Result<NameStep, FormatError> {
    if !(0 <= pos < msg.len()) {
        Err(FormatError::UnexpectedEnd)
    } else if msg[pos] == 0 {
        Ok(NameStep::End { next: pos + 1 })
    } else if msg[pos] <= MAX_LABEL_LEN {
        let next = pos + 1 + msg[pos];
        if next > msg.len() {
            Err(FormatError::UnexpectedEnd)
        } else if !valid_utf8(msg.subrange(pos + 1, next)) {
            Err(FormatError::InvalidLabel)
        } else {
            Ok(NameStep::Label { label: decode_utf8(msg.subrange(pos + 1, next)), next })
        }
    } else if pos + 1 >= msg.len() {
        Err(FormatError::UnexpectedEnd)
    } else {
        Ok(NameStep::Pointer { target: msg[pos] % 64 * 0x100 + msg[pos + 1], next: pos + 2 })
    }
}

/// Reads a name from `pos`, following at most `hops` pointers. Gives the
/// labels and the position behind the name: behind the closing zero byte, or
/// behind the first pointer where there is one.
pub open spec fn parse_name(msg: Seq<u8>, pos: int, hops: nat) -> Result<
    (Seq<Seq<char>>, int),
    FormatError,
>
    decreases hops, msg.len() - pos,
{
    match name_step(msg, pos) {
        Err(e) => Err(e),
        Ok(NameStep::End { next }) => Ok((Seq::empty(), next)),
        Ok(NameStep::Label { label, next }) => match parse_name(msg, next, hops) {
            Err(e) => Err(e),
            Ok((rest, end)) => Ok((seq![label] + rest, end)),
        },
        Ok(NameStep::Pointer { target, next }) => if hops == 0 {
            Err(FormatError::TooManyPointers)
        } else {
            match parse_name(msg, target, (hops - 1) as nat) {
                Err(e) => Err(e),
                Ok((rest, _)) => Ok((rest, next)),
            }
        },
    }
}

/// Reads a question from `pos`: a name, then type and class.
pub open spec fn parse_question(msg: Seq<u8>, pos: int) -> Result<
    (QuestionView, int),
    FormatError,
> {
    match parse_name(msg, pos, MAX_POINTER_HOPS as nat) {
        Err(e) => Err(e),
        Ok((labels, p)) => if p + 4 > msg.len() {
            Err(FormatError::UnexpectedEnd)
        } else {
            Ok((QuestionView { labels, typ: u16_at(msg, p), class: u16_at(msg, p + 2) }, p + 4))
        },
    }
}

/// Reads a record from `pos`: the owner, the time to live, the data's length
/// and as many bytes of data.
pub open spec fn parse_record(msg: Seq<u8>, pos: int) -> Result<(RecordView, int), FormatError> {
    match parse_question(msg, pos) {
        Err(e) => Err(e),
        Ok((question, p)) => if p + 6 > msg.len() {
            Err(FormatError::UnexpectedEnd)
        } else if p + 6 + u16_at(msg, p + 4) > msg.len() {
            Err(FormatError::UnexpectedEnd)
        } else {
            let end = p + 6 + u16_at(msg, p + 4);
            Ok((RecordView { question, ttl: u32_at(msg, p), data: msg.subrange(p + 6, end) }, end))
        },
    }
}

/// Reads `count` questions from `pos`.
pub open spec fn parse_questions(msg: Seq<u8>, pos: int, count: nat) -> Result<
    (Seq<QuestionView>, int),
    FormatError,
>
    decreases count,
{
    if count == 0 {
        Ok((Seq::empty(), pos))
    } else {
        match parse_question(msg, pos) {
            Err(e) => Err(e),
            Ok((q, p)) => match parse_questions(msg, p, (count - 1) as nat) {
                Err(e) => Err(e),
                Ok((rest, end)) => Ok((seq![q] + rest, end)),
            },
        }
    }
}

/// Reads `count` records from `pos`.
pub open spec fn parse_records(msg: Seq<u8>, pos: int, count: nat) -> Result<
    (Seq<RecordView>, int),
    FormatError,
>
    decreases count,
{
    if count == 0 {
        Ok((Seq::empty(), pos))
    } else {
        match parse_record(msg, pos) {
            Err(e) => Err(e),
            Ok((r, p)) => match parse_records(msg, p, (count - 1) as nat) {
                Err(e) => Err(e),
                Ok((rest, end)) => Ok((seq![r] + rest, end)),
            },
        }
    }
}

/// Reads a message: the first twelve bytes are the header; questions,
/// answers and authorities follow in this order, as many as the header
/// counts. What comes after them is not read.
pub open spec fn parse_packet(msg: Seq<u8>) -> Result<PacketView, FormatError> {
    if msg.len() < HEADER_LEN {
        Err(FormatError::TooShort)
    } else {
        let head = msg.subrange(0, HEADER_LEN as int);
        match parse_questions(msg, HEADER_LEN as int, header_field(head, HeaderField::QdCount)) {
            Err(e) => Err(e),
            Ok((questions, after_questions)) => match parse_records(
                msg,
                after_questions,
                header_field(head, HeaderField::AnCount),
            ) {
                Err(e) => Err(e),
                Ok((answers, after_answers)) => match parse_records(
                    msg,
                    after_answers,
                    header_field(head, HeaderField::NsCount),
                ) {
                    Err(e) => Err(e),
                    Ok((authorities, _)) => Ok(
                        PacketView { head, questions, answers, authorities },
                    ),
                },
            },
        }
    }
}

/// One entry to append to a message.
pub enum Push {
    Question(QuestionView),
    Answer(RecordView),
    Authority(RecordView),
}

impl PacketView {
    /// The message after `entry` was pushed to its section.
    pub open spec fn push(self, entry: Push) -> PacketView {
        match entry {
            Push::Question(q) => self.push_question(q),
            Push::Answer(r) => self.push_answer(r),
            Push::Authority(r) => self.push_authority(r),
        }
    }

    /// The message after each of `entries` was pushed, in order.
    pub open spec fn push_all(self, entries: Seq<Push>) -> PacketView
        decreases entries.len(),
    {
        if entries.len() == 0 {
            self
        } else {
            self.push_all(entries.drop_last()).push(entries.last())
        }
    }

    /// The number of entries in the three sections together.
    pub open spec fn entries(self) -> nat {
        self.questions.len() + self.answers.len() + self.authorities.len()
    }
}

/// A push sets the count of its section to the section's new length, cut to
/// sixteen bits, and leaves the other header fields alone.
pub proof fn lemma_push_counts(packet: PacketView, entry: Push, g: HeaderField)
    requires
        packet.head.len() == HEADER_LEN,
    ensures
        packet.push(entry).head.len() == HEADER_LEN,
        entry is Question ==> packet.push(entry).field(HeaderField::QdCount) == count_of(
            packet.questions.len() + 1,
        ),
        entry is Answer ==> packet.push(entry).field(HeaderField::AnCount) == count_of(
            packet.answers.len() + 1,
        ),
        entry is Authority ==> packet.push(entry).field(HeaderField::NsCount) == count_of(
            packet.authorities.len() + 1,
        ),
        !(entry is Question && g == HeaderField::QdCount) && !(entry is Answer && g
            == HeaderField::AnCount) && !(entry is Authority && g == HeaderField::NsCount)
            ==> packet.push(entry).field(g) == packet.field(g),
{
    match entry {
        Push::Question(_) => {
            lemma_write_then_read(
                packet.head,
                HeaderField::QdCount,
                count_of(packet.questions.len() + 1) as nat,
                g,
            );
        },
        Push::Answer(_) => {
            lemma_write_then_read(
                packet.head,
                HeaderField::AnCount,
                count_of(packet.answers.len() + 1) as nat,
                g,
            );
        },
        Push::Authority(_) => {
            lemma_write_then_read(
                packet.head,
                HeaderField::NsCount,
                count_of(packet.authorities.len() + 1) as nat,
                g,
            );
        },
    }
}

/// The header of the empty message holds zero in every field.
pub proof fn lemma_empty_fields(f: HeaderField)
    ensures
        PacketView::empty().field(f) == 0,
        PacketView::empty().head.len() == HEADER_LEN,
{
    let head = PacketView::empty().head;
    assert forall|i: int| 0 <= i < 8 * HEADER_LEN implies #[trigger] bit_at(head, i) == 0 by {
        let s = (7 - i % 8) as u8;
        assert((0u8 >> s) & 1 == 0) by (bit_vector);
    }
    lemma_field_zero(head, f.offset(), f.width());
}

/// A field whose bits are all zero is zero.
proof fn lemma_field_zero(buf: Seq<u8>, offset: int, width: nat)
    requires
        forall|i: int| offset <= i < offset + width ==> #[trigger] bit_at(buf, i) == 0,
    ensures
        field(buf, offset, width) == 0,
    decreases width,
{
    if width > 0 {
        lemma_field_zero(buf, offset, (width - 1) as nat);
        assert(bit_at(buf, offset + width - 1) == 0);
    }
}

/// Pushes keep the section counts equal to the sections' lengths, as long as
/// the lengths fit the counts. The count of additional records is never
/// touched.
pub proof fn lemma_pushes_keep_counts(packet: PacketView, entries: Seq<Push>)
    requires
        packet.counts_match(),
        packet.entries() + entries.len() <= 0xFFFF,
    ensures
        packet.push_all(entries).counts_match(),
        packet.push_all(entries).entries() == packet.entries() + entries.len(),
        packet.push_all(entries).field(HeaderField::ArCount) == packet.field(HeaderField::ArCount),
    decreases entries.len(),
{
    if entries.len() > 0 {
        let before = packet.push_all(entries.drop_last());
        lemma_pushes_keep_counts(packet, entries.drop_last());
        lemma_push_counts(before, entries.last(), HeaderField::QdCount);
        lemma_push_counts(before, entries.last(), HeaderField::AnCount);
        lemma_push_counts(before, entries.last(), HeaderField::NsCount);
        lemma_push_counts(before, entries.last(), HeaderField::ArCount);
    }
}

/// After any sequence of pushes onto an empty message, QDCOUNT, ANCOUNT and
/// NSCOUNT are the lengths of the question, answer and authority sections,
/// and ARCOUNT is still zero. The counts hold sixteen bits, so this is said
/// of at most 65535 pushes.
pub proof fn lemma_counts_after_pushes(entries: Seq<Push>)
    requires
        entries.len() <= 0xFFFF,
    ensures
        PacketView::empty().push_all(entries).counts_match(),
        PacketView::empty().push_all(entries).field(HeaderField::ArCount) == 0,
{
    lemma_empty_fields(HeaderField::QdCount);
    lemma_empty_fields(HeaderField::AnCount);
    lemma_empty_fields(HeaderField::NsCount);
    lemma_empty_fields(HeaderField::ArCount);
    lemma_pushes_keep_counts(PacketView::empty(), entries);
}

} // verus!
