//! Decoding undoes encoding: a message whose labels, data and sections fit
//! their length prefixes reads back from its bytes as it was.

use crate::buffer_helpers::{
    lemma_field_u16, lemma_with_u16_bytes, lemma_with_u16_same, with_u16,
};
use crate::header::HEADER_LEN;
use crate::wire::{
    be16, be32, count_of, label_bytes, name_bytes, name_step, parse_name, parse_packet,
    parse_question, parse_questions, parse_record, parse_records, questions_bytes, records_bytes,
    u16_at, u32_at, valid_labels, FormatError, NameStep, PacketView, QuestionView, RecordView,
    MAX_POINTER_HOPS,
};
use vstd::prelude::*;
use vstd::utf8::{encode_utf8, encode_utf8_decode_utf8, encode_utf8_valid_utf8};

verus! {

/// Whether `bytes` stand in `msg` from `pos`.
pub open spec fn holds_at(msg: Seq<u8>, pos: int, bytes: Seq<u8>) -> bool {
    &&& 0 <= pos
    &&& pos + bytes.len() <= msg.len()
    &&& msg.subrange(pos, pos + bytes.len()) == bytes
}

/// Where a concatenation stands, both parts stand.
proof fn lemma_holds_split(msg: Seq<u8>, pos: int, a: Seq<u8>, b: Seq<u8>)
    requires
        holds_at(msg, pos, a + b),
    ensures
        holds_at(msg, pos, a),
        holds_at(msg, pos + a.len(), b),
{
    let whole = msg.subrange(pos, pos + (a + b).len());
    assert forall|i: int| 0 <= i < a.len() implies msg[pos + i] == a[i] by {
        assert(whole[i] == msg[pos + i]);
        assert((a + b)[i] == a[i]);
    }
    assert forall|i: int| 0 <= i < b.len() implies msg[pos + a.len() + i] == b[i] by {
        assert(whole[a.len() + i] == msg[pos + a.len() + i]);
        assert((a + b)[a.len() + i] == b[i]);
    }
    assert(msg.subrange(pos, pos + a.len()) =~= a);
    assert(msg.subrange(pos + a.len(), pos + a.len() + b.len()) =~= b);
}

/// Where the two bytes of a number stand, the number is read.
proof fn lemma_u16_read(msg: Seq<u8>, pos: int, v: u16)
    requires
        holds_at(msg, pos, be16(v)),
    ensures
        u16_at(msg, pos) == v,
{
    let part = msg.subrange(pos, pos + 2);
    assert(part[0] == msg[pos] && part[1] == msg[pos + 1]);
}

/// Where the four bytes of a number stand, the number is read.
proof fn lemma_u32_read(msg: Seq<u8>, pos: int, v: u32)
    requires
        holds_at(msg, pos, be32(v)),
    ensures
        u32_at(msg, pos) == v,
{
    let part = msg.subrange(pos, pos + 4);
    assert(part[0] == msg[pos] && part[1] == msg[pos + 1] && part[2] == msg[pos + 2] && part[3]
        == msg[pos + 3]);
}

/// A written name reads back as its labels, and reading ends behind its
/// closing zero byte. No pointer is met, so the bound on pointers plays no
/// part.
pub proof fn lemma_name_round_trip(msg: Seq<u8>, pos: int, labels: Seq<Seq<char>>, hops: nat)
    requires
        holds_at(msg, pos, name_bytes(labels)),
        valid_labels(labels),
    ensures
        parse_name(msg, pos, hops) == Ok::<(Seq<Seq<char>>, int), FormatError>(
            (labels, pos + name_bytes(labels).len()),
        ),
    decreases labels.len(),
{
    if labels.len() == 0 {
        let part = msg.subrange(pos, pos + 1);
        assert(part[0] == msg[pos]);
        assert(labels =~= Seq::empty());
    } else {
        let label = labels[0];
        let encoded = encode_utf8(label);
        let rest = labels.drop_first();
        assert(1 <= encoded.len() <= 63);
        lemma_holds_split(msg, pos, label_bytes(label), name_bytes(rest));
        lemma_holds_split(msg, pos, seq![(encoded.len() % 0x100) as u8], encoded);
        let part = msg.subrange(pos, pos + 1);
        assert(part[0] == msg[pos]);
        assert(msg[pos] == encoded.len());
        encode_utf8_valid_utf8(label);
        encode_utf8_decode_utf8(label);
        let next = pos + 1 + encoded.len();
        assert(msg.subrange(pos + 1, next) == encoded);
        assert(name_step(msg, pos) == Ok::<NameStep, FormatError>(
            NameStep::Label { label, next },
        ));
        assert forall|i: int| 0 <= i < rest.len() implies 1 <= (#[trigger] encode_utf8(
            rest[i],
        )).len() <= 63 by {
            assert(rest[i] == labels[i + 1]);
        }
        lemma_name_round_trip(msg, next, rest, hops);
        assert(seq![label] + rest =~= labels);
    }
}

/// A compression pointer to a written name reads as that name, and reading
/// goes on behind the two bytes of the pointer, wherever the name stands.
pub proof fn lemma_pointer_to_name(
    msg: Seq<u8>,
    pos: int,
    target: int,
    labels: Seq<Seq<char>>,
    hops: nat,
)
    requires
        0 <= pos,
        pos + 1 < msg.len(),
        msg[pos] > 63,
        target == msg[pos] % 64 * 0x100 + msg[pos + 1],
        holds_at(msg, target, name_bytes(labels)),
        valid_labels(labels),
        hops > 0,
    ensures
        parse_name(msg, pos, hops) == Ok::<(Seq<Seq<char>>, int), FormatError>((labels, pos + 2)),
{
    lemma_name_round_trip(msg, target, labels, (hops - 1) as nat);
}

/// A written question reads back as it was.
pub proof fn lemma_question_round_trip(msg: Seq<u8>, pos: int, q: QuestionView)
    requires
        holds_at(msg, pos, q.bytes()),
        q.valid(),
    ensures
        parse_question(msg, pos) == Ok::<(QuestionView, int), FormatError>(
            (q, pos + q.bytes().len()),
        ),
{
    let name = name_bytes(q.labels);
    lemma_holds_split(msg, pos, name + be16(q.typ), be16(q.class));
    lemma_holds_split(msg, pos, name, be16(q.typ));
    lemma_name_round_trip(msg, pos, q.labels, MAX_POINTER_HOPS as nat);
    lemma_u16_read(msg, pos + name.len(), q.typ);
    lemma_u16_read(msg, pos + name.len() + 2, q.class);
}

/// A written record reads back as it was.
pub proof fn lemma_record_round_trip(msg: Seq<u8>, pos: int, r: RecordView)
    requires
        holds_at(msg, pos, r.bytes()),
        r.valid(),
    ensures
        parse_record(msg, pos) == Ok::<(RecordView, int), FormatError>((r, pos + r.bytes().len())),
{
    let owner = r.question.bytes();
    let length = be16(count_of(r.data.len()));
    lemma_holds_split(msg, pos, owner + be32(r.ttl) + length, r.data);
    lemma_holds_split(msg, pos, owner + be32(r.ttl), length);
    lemma_holds_split(msg, pos, owner, be32(r.ttl));
    lemma_question_round_trip(msg, pos, r.question);
    let p = pos + owner.len();
    lemma_u32_read(msg, p, r.ttl);
    lemma_u16_read(msg, p + 4, count_of(r.data.len()));
}

/// A written run of questions reads back as it was.
pub proof fn lemma_questions_round_trip(msg: Seq<u8>, pos: int, questions: Seq<QuestionView>)
    requires
        holds_at(msg, pos, questions_bytes(questions)),
        forall|i: int| 0 <= i < questions.len() ==> (#[trigger] questions[i]).valid(),
    ensures
        parse_questions(msg, pos, questions.len()) == Ok::<(Seq<QuestionView>, int), FormatError>(
            (questions, pos + questions_bytes(questions).len()),
        ),
    decreases questions.len(),
{
    if questions.len() == 0 {
        assert(questions =~= Seq::empty());
    } else {
        let rest = questions.drop_first();
        lemma_holds_split(msg, pos, questions[0].bytes(), questions_bytes(rest));
        lemma_question_round_trip(msg, pos, questions[0]);
        assert forall|i: int| 0 <= i < rest.len() implies (#[trigger] rest[i]).valid() by {
            assert(rest[i] == questions[i + 1]);
        }
        lemma_questions_round_trip(msg, pos + questions[0].bytes().len(), rest);
        assert(seq![questions[0]] + rest =~= questions);
    }
}

/// A written run of records reads back as it was.
pub proof fn lemma_records_round_trip(msg: Seq<u8>, pos: int, records: Seq<RecordView>)
    requires
        holds_at(msg, pos, records_bytes(records)),
        forall|i: int| 0 <= i < records.len() ==> (#[trigger] records[i]).valid(),
    ensures
        parse_records(msg, pos, records.len()) == Ok::<(Seq<RecordView>, int), FormatError>(
            (records, pos + records_bytes(records).len()),
        ),
    decreases records.len(),
{
    if records.len() == 0 {
        assert(records =~= Seq::empty());
    } else {
        let rest = records.drop_first();
        lemma_holds_split(msg, pos, records[0].bytes(), records_bytes(rest));
        lemma_record_round_trip(msg, pos, records[0]);
        assert forall|i: int| 0 <= i < rest.len() implies (#[trigger] rest[i]).valid() by {
            assert(rest[i] == records[i + 1]);
        }
        lemma_records_round_trip(msg, pos + records[0].bytes().len(), rest);
        assert(seq![records[0]] + rest =~= records);
    }
}

/// The header that is sent counts the sections, and is the stored header
/// where that one counts them already.
pub proof fn lemma_wire_head(p: PacketView)
    requires
        p.head.len() == HEADER_LEN,
        p.questions.len() <= 0xFFFF,
        p.answers.len() <= 0xFFFF,
        p.authorities.len() <= 0xFFFF,
    ensures
        p.with_head(p.wire_head()).counts_match(),
        p.counts_match() ==> p.wire_head() == p.head,
{
    let qd = count_of(p.questions.len());
    let an = count_of(p.answers.len());
    let ns = count_of(p.authorities.len());
    let h1 = with_u16(p.head, 4, qd);
    let h2 = with_u16(h1, 6, an);
    let h3 = with_u16(h2, 8, ns);
    lemma_with_u16_bytes(p.head, 4, qd);
    lemma_with_u16_bytes(h1, 6, an);
    lemma_with_u16_bytes(h2, 8, ns);
    lemma_field_u16(h3, 4);
    lemma_field_u16(h3, 6);
    lemma_field_u16(h3, 8);
    if p.counts_match() {
        lemma_field_u16(p.head, 4);
        lemma_field_u16(p.head, 6);
        lemma_field_u16(p.head, 8);
        lemma_with_u16_same(p.head, 4, qd);
        lemma_with_u16_same(h1, 6, an);
        lemma_with_u16_same(h2, 8, ns);
    }
}

/// Decoding the bytes of a valid message gives the message back, with the
/// section counts that were sent. Where the stored counts were the sections'
/// lengths already, it gives back the very message, field for field.
pub proof fn lemma_round_trip(p: PacketView)
    requires
        p.valid(),
    ensures
        parse_packet(p.bytes()) == Ok::<PacketView, FormatError>(p.with_head(p.wire_head())),
        p.counts_match() ==> parse_packet(p.bytes()) == Ok::<PacketView, FormatError>(p),
{
    let msg = p.bytes();
    let head = p.wire_head();
    let qs = questions_bytes(p.questions);
    let ans = records_bytes(p.answers);
    let auth = records_bytes(p.authorities);
    assert(holds_at(msg, 0, msg)) by {
        assert(msg.subrange(0, msg.len() as int) =~= msg);
    }
    lemma_holds_split(msg, 0, head + qs + ans, auth);
    lemma_holds_split(msg, 0, head + qs, ans);
    lemma_holds_split(msg, 0, head, qs);
    lemma_wire_head(p);
    assert(msg.subrange(0, HEADER_LEN as int) == head);
    lemma_questions_round_trip(msg, HEADER_LEN as int, p.questions);
    lemma_records_round_trip(msg, HEADER_LEN + qs.len(), p.answers);
    lemma_records_round_trip(msg, HEADER_LEN + qs.len() + ans.len(), p.authorities);
}

} // verus!
