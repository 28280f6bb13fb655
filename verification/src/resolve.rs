//! How a request is answered.
//!
//! A response starts from the request's identifier, recursion flag and
//! opcode. A request that is no standard query is refused at once. Without an
//! upstream resolver each question gets one fixed answer. With one, the
//! questions are forwarded in order, one query each; what comes back is folded
//! into the response until the questions are used up or one of them fails.
//! Sending a query and waiting for its reply is the caller's part: a
//! [`Resolution`] says which query is due and takes what came back.

use crate::header::{lemma_header_field_range, lemma_write_then_read, HeaderField, HEADER_LEN};
use crate::packet::{Answer, DnsPacket, Question, ResponseCodes};
use crate::wire::{
    count_of, lemma_empty_fields, lemma_push_counts, parse_packet, FormatError, PacketView, Push,
    QuestionView, RecordView,
};
use vstd::prelude::*;

verus! {

/// The time to live of an answer that was not obtained from a resolver.
pub const LOCAL_TTL: u32 = 2200;

/// Why a forwarded question brought no result.
#[derive(Clone, Copy, Debug, PartialEq, Eq, Structural)]
pub enum ResolverError {
    /// No reply came: the query timed out or the transport failed.
    Unreachable,
    /// The reply is no DNS message.
    Malformed(FormatError),
    /// The reply says that the name does not exist, but cites no authority.
    NoAuthority,
    /// The reply carries this result code, which is neither success nor a
    /// missing name.
    Rcode(u8),
}

/// What the transport brought back for one forwarded query.
#[derive(Debug)]
pub enum Upstream {
    /// The bytes of the reply.
    Reply(Vec<u8>),
    /// No reply: a timeout or an I/O failure.
    Failed,
}

/// What the transport brought back, as mathematics.
pub enum UpstreamView {
    Reply(Seq<u8>),
    Failed,
}

impl View for Upstream {
    type V = UpstreamView;

    open spec fn view(&self) -> UpstreamView {
        match self {
            Upstream::Reply(bytes) => UpstreamView::Reply(bytes@),
            Upstream::Failed => UpstreamView::Failed,
        }
    }
}

/// What a reply contributes to the response.
#[derive(Debug)]
pub enum ResolutionOutcome {
    /// The answers of a successful reply.
    Answers(Vec<Answer>),
    /// The first authority of a reply that says the name does not exist.
    NameError(Answer),
}

/// What a reply contributes to the response, as mathematics.
pub enum OutcomeView {
    Answers(Seq<RecordView>),
    NameError(RecordView),
}

impl View for ResolutionOutcome {
    type V = OutcomeView;

    open spec fn view(&self) -> OutcomeView {
        match self {
            ResolutionOutcome::Answers(answers) => OutcomeView::Answers(answers.deep_view()),
            ResolutionOutcome::NameError(authority) => OutcomeView::NameError(authority@),
        }
    }
}

/// The answer given to `question` when no resolver is configured: the
/// question itself, the fixed time to live and four zero bytes for an
/// address.
pub open spec fn local_record(question: QuestionView) -> RecordView {
    RecordView { question, ttl: LOCAL_TTL, data: seq![0u8, 0u8, 0u8, 0u8] }
}

/// What a decoded reply contributes: its answers when its result code is 0,
/// its first authority when the code is 3, an error otherwise.
pub open spec fn reply_outcome(reply: PacketView) -> Result<OutcomeView, ResolverError> {
    let rcode = reply.field(HeaderField::Rcode);
    if rcode == 0 {
        Ok(OutcomeView::Answers(reply.answers))
    } else if rcode == 3 {
        if reply.authorities.len() == 0 {
            Err(ResolverError::NoAuthority)
        } else {
            Ok(OutcomeView::NameError(reply.authorities[0]))
        }
    } else {
        Err(ResolverError::Rcode(rcode as u8))
    }
}

/// What the transport's result contributes.
pub open spec fn upstream_outcome(upstream: UpstreamView) -> Result<OutcomeView, ResolverError> {
    match upstream {
        UpstreamView::Failed => Err(ResolverError::Unreachable),
        UpstreamView::Reply(bytes) => match parse_packet(bytes) {
            Err(e) => Err(ResolverError::Malformed(e)),
            Ok(reply) => reply_outcome(reply),
        },
    }
}

/// `packet` after each of `records` was pushed as an answer, in order.
pub open spec fn push_answers(packet: PacketView, records: Seq<RecordView>) -> PacketView
    decreases records.len(),
{
    if records.len() == 0 {
        packet
    } else {
        push_answers(packet.push_answer(records[0]), records.drop_first())
    }
}

/// `response` after each of `questions` was echoed and given its fixed
/// answer, in order.
pub open spec fn answer_locally(response: PacketView, questions: Seq<QuestionView>) -> PacketView
    decreases questions.len(),
{
    if questions.len() == 0 {
        response
    } else {
        answer_locally(
            response.push_question(questions[0]).push_answer(local_record(questions[0])),
            questions.drop_first(),
        )
    }
}

/// The response before any question was looked at: an empty message with the
/// request's identifier, QR set, and the request's recursion flag and opcode.
pub open spec fn response_start(request: PacketView) -> PacketView {
    PacketView::empty().with_field(HeaderField::Id, request.field(HeaderField::Id)).with_field(
        HeaderField::Qr,
        1,
    ).with_field(HeaderField::Rd, request.field(HeaderField::Rd)).with_field(
        HeaderField::Opcode,
        request.field(HeaderField::Opcode),
    )
}

/// The query that forwards `question` under the identifier `id`: one
/// question, recursion desired.
pub open spec fn query_for(question: QuestionView, id: nat) -> PacketView {
    PacketView::empty().with_field(HeaderField::Id, id).push_question(question).with_field(
        HeaderField::Rd,
        1,
    )
}

/// A response in the making, as mathematics: the response so far and the
/// questions that still wait to be forwarded.
pub struct ResolutionView {
    pub response: PacketView,
    pub pending: Seq<QuestionView>,
}

impl ResolutionView {
    /// Where the answering of `request` starts. `forwarding` says whether a
    /// resolver is configured.
    pub open spec fn begin(request: PacketView, forwarding: bool) -> ResolutionView {
        let start = response_start(request);
        if request.field(HeaderField::Opcode) != 0 {
            ResolutionView {
                response: start.with_field(
                    HeaderField::Rcode,
                    ResponseCodes::NotImplemented.spec_code() as nat,
                ),
                pending: Seq::empty(),
            }
        } else if forwarding {
            ResolutionView { response: start, pending: request.questions }
        } else {
            ResolutionView {
                response: answer_locally(start, request.questions),
                pending: Seq::empty(),
            }
        }
    }

    /// Whether no question waits any more.
    pub open spec fn finished(self) -> bool {
        self.pending.len() == 0
    }

    /// The state after the transport's result for the first pending question
    /// came in. A successful reply adds the question and the reply's answers;
    /// a missing name adds the first authority and nothing else; any failure
    /// sets the result code to 2 and drops the questions that still wait,
    /// while what the response already holds stays.
    pub open spec fn deliver(self, upstream: UpstreamView) -> ResolutionView {
        if self.pending.len() == 0 {
            self
        } else {
            match upstream_outcome(upstream) {
                Ok(OutcomeView::Answers(records)) => ResolutionView {
                    response: push_answers(self.response.push_question(self.pending[0]), records),
                    pending: self.pending.drop_first(),
                },
                Ok(OutcomeView::NameError(authority)) => ResolutionView {
                    response: self.response.push_authority(authority),
                    pending: self.pending.drop_first(),
                },
                Err(_) => ResolutionView {
                    response: self.response.with_field(
                        HeaderField::Rcode,
                        ResponseCodes::ServerFailure.spec_code() as nat,
                    ),
                    pending: Seq::empty(),
                },
            }
        }
    }

    /// What `deliver` reports: the error that ended the resolution, if one
    /// did.
    pub open spec fn deliver_result(self, upstream: UpstreamView) -> Result<(), ResolverError> {
        if self.pending.len() == 0 {
            Ok(())
        } else {
            match upstream_outcome(upstream) {
                Ok(_) => Ok(()),
                Err(e) => Err(e),
            }
        }
    }
}

/// Whether `response` carries what every response takes from its request:
/// the identifier, the recursion flag and the opcode, with QR set.
pub open spec fn answers_to(response: PacketView, request: PacketView) -> bool {
    &&& response.head.len() == HEADER_LEN
    &&& response.field(HeaderField::Id) == request.field(HeaderField::Id)
    &&& response.field(HeaderField::Qr) == 1
    &&& response.field(HeaderField::Rd) == request.field(HeaderField::Rd)
    &&& response.field(HeaderField::Opcode) == request.field(HeaderField::Opcode)
}

/// Whether `f` is a field that pushes and result codes leave alone.
pub open spec fn kept_field(f: HeaderField) -> bool {
    f == HeaderField::Id || f == HeaderField::Qr || f == HeaderField::Rd || f
        == HeaderField::Opcode || f == HeaderField::ArCount
}

/// The response starts with the request's identifier, recursion flag and
/// opcode, with QR set, result code 0 and no entries.
pub proof fn lemma_response_start(request: PacketView)
    requires
        request.head.len() == HEADER_LEN,
    ensures
        answers_to(response_start(request), request),
        response_start(request).field(HeaderField::Rcode) == 0,
        response_start(request).questions.len() == 0,
        response_start(request).answers.len() == 0,
        response_start(request).authorities.len() == 0,
{
    let id = request.field(HeaderField::Id);
    let rd = request.field(HeaderField::Rd);
    let opcode = request.field(HeaderField::Opcode);
    lemma_header_field_range(request.head, HeaderField::Id);
    lemma_header_field_range(request.head, HeaderField::Rd);
    lemma_header_field_range(request.head, HeaderField::Opcode);
    let empty = PacketView::empty();
    let with_id = empty.with_field(HeaderField::Id, id);
    let with_qr = with_id.with_field(HeaderField::Qr, 1);
    let with_rd = with_qr.with_field(HeaderField::Rd, rd);
    let h0 = empty.head;
    let h1 = with_id.head;
    let h2 = with_qr.head;
    let h3 = with_rd.head;
    lemma_empty_fields(HeaderField::Rcode);
    lemma_write_then_read(h0, HeaderField::Id, id, HeaderField::Rcode);
    lemma_write_then_read(h1, HeaderField::Qr, 1, HeaderField::Id);
    lemma_write_then_read(h1, HeaderField::Qr, 1, HeaderField::Rcode);
    lemma_write_then_read(h2, HeaderField::Rd, rd, HeaderField::Id);
    lemma_write_then_read(h2, HeaderField::Rd, rd, HeaderField::Qr);
    lemma_write_then_read(h2, HeaderField::Rd, rd, HeaderField::Rcode);
    lemma_write_then_read(h3, HeaderField::Opcode, opcode, HeaderField::Id);
    lemma_write_then_read(h3, HeaderField::Opcode, opcode, HeaderField::Qr);
    lemma_write_then_read(h3, HeaderField::Opcode, opcode, HeaderField::Rd);
    lemma_write_then_read(h3, HeaderField::Opcode, opcode, HeaderField::Rcode);
}

/// Pushing answers appends them, and changes no header field but ANCOUNT.
pub proof fn lemma_push_answers(packet: PacketView, records: Seq<RecordView>, f: HeaderField)
    requires
        packet.head.len() == HEADER_LEN,
    ensures
        push_answers(packet, records).head.len() == HEADER_LEN,
        push_answers(packet, records).questions == packet.questions,
        push_answers(packet, records).answers == packet.answers + records,
        push_answers(packet, records).authorities == packet.authorities,
        f != HeaderField::AnCount ==> push_answers(packet, records).field(f) == packet.field(f),
    decreases records.len(),
{
    if records.len() == 0 {
        assert(packet.answers + records =~= packet.answers);
    } else {
        let next = packet.push_answer(records[0]);
        lemma_push_counts(packet, Push::Answer(records[0]), f);
        lemma_push_answers(next, records.drop_first(), f);
        assert(next.answers + records.drop_first() =~= packet.answers + records);
    }
}

/// Answering locally adds each question and one answer for it, and changes
/// no header field but QDCOUNT and ANCOUNT.
pub proof fn lemma_answer_locally(
    response: PacketView,
    questions: Seq<QuestionView>,
    f: HeaderField,
)
    requires
        response.head.len() == HEADER_LEN,
    ensures
        answer_locally(response, questions).head.len() == HEADER_LEN,
        answer_locally(response, questions).questions == response.questions + questions,
        answer_locally(response, questions).answers == response.answers + questions.map_values(
            |q: QuestionView| local_record(q),
        ),
        answer_locally(response, questions).authorities == response.authorities,
        f != HeaderField::QdCount && f != HeaderField::AnCount ==> answer_locally(
            response,
            questions,
        ).field(f) == response.field(f),
    decreases questions.len(),
{
    let answers = questions.map_values(|q: QuestionView| local_record(q));
    if questions.len() == 0 {
        assert(response.questions + questions =~= response.questions);
        assert(response.answers + answers =~= response.answers);
    } else {
        let asked = response.push_question(questions[0]);
        let next = asked.push_answer(local_record(questions[0]));
        lemma_push_counts(response, Push::Question(questions[0]), f);
        lemma_push_counts(
            asked,
            Push::Answer(local_record(questions[0])),
            f,
        );
        lemma_answer_locally(next, questions.drop_first(), f);
        let rest = questions.drop_first().map_values(|q: QuestionView| local_record(q));
        assert(next.questions + questions.drop_first() =~= response.questions + questions);
        assert(next.answers + rest =~= response.answers + answers);
    }
}

/// However a resolution starts, its response answers to the request. A
/// request that is no standard query gets result code 4 and no entries;
/// without a resolver every question is echoed and gets the fixed answer.
pub proof fn lemma_begin(request: PacketView, forwarding: bool)
    requires
        request.head.len() == HEADER_LEN,
    ensures
        answers_to(ResolutionView::begin(request, forwarding).response, request),
        request.field(HeaderField::Opcode) != 0 ==> {
            let r = ResolutionView::begin(request, forwarding);
            &&& r.finished()
            &&& r.response.field(HeaderField::Rcode) == 4
            &&& r.response.questions.len() == 0
            &&& r.response.answers.len() == 0
            &&& r.response.authorities.len() == 0
        },
        request.field(HeaderField::Opcode) == 0 && !forwarding ==> {
            let r = ResolutionView::begin(request, forwarding);
            &&& r.finished()
            &&& r.response.field(HeaderField::Rcode) == 0
            &&& r.response.questions == request.questions
            &&& r.response.answers == request.questions.map_values(
                |q: QuestionView| local_record(q),
            )
            &&& r.response.authorities.len() == 0
        },
        request.field(HeaderField::Opcode) == 0 && forwarding ==> {
            let r = ResolutionView::begin(request, forwarding);
            &&& r.pending == request.questions
            &&& r.response == response_start(request)
        },
{
    let start = response_start(request);
    lemma_response_start(request);
    if request.field(HeaderField::Opcode) != 0 {
        lemma_write_then_read(start.head, HeaderField::Rcode, 4, HeaderField::Id);
        lemma_write_then_read(start.head, HeaderField::Rcode, 4, HeaderField::Qr);
        lemma_write_then_read(start.head, HeaderField::Rcode, 4, HeaderField::Rd);
        lemma_write_then_read(start.head, HeaderField::Rcode, 4, HeaderField::Opcode);
    } else if !forwarding {
        lemma_answer_locally(start, request.questions, HeaderField::Id);
        lemma_answer_locally(start, request.questions, HeaderField::Qr);
        lemma_answer_locally(start, request.questions, HeaderField::Rd);
        lemma_answer_locally(start, request.questions, HeaderField::Opcode);
        lemma_answer_locally(start, request.questions, HeaderField::Rcode);
        let answers = request.questions.map_values(|q: QuestionView| local_record(q));
        assert(start.questions + request.questions =~= request.questions);
        assert(start.answers + answers =~= answers);
    }
}

/// Whatever the transport brings, the response goes on answering to the
/// request, and nothing that it holds is taken away: questions, answers and
/// authorities only grow.
pub proof fn lemma_deliver_keeps(state: ResolutionView, upstream: UpstreamView, request: PacketView)
    requires
        answers_to(state.response, request),
    ensures
        answers_to(state.deliver(upstream).response, request),
        state.response.questions.is_prefix_of(state.deliver(upstream).response.questions),
        state.response.answers.is_prefix_of(state.deliver(upstream).response.answers),
        state.response.authorities.is_prefix_of(state.deliver(upstream).response.authorities),
        state.deliver(upstream).response.field(HeaderField::ArCount) == state.response.field(
            HeaderField::ArCount,
        ),
{
    lemma_deliver_field(state, upstream, HeaderField::Id);
    lemma_deliver_field(state, upstream, HeaderField::Qr);
    lemma_deliver_field(state, upstream, HeaderField::Rd);
    lemma_deliver_field(state, upstream, HeaderField::Opcode);
    lemma_deliver_field(state, upstream, HeaderField::ArCount);
}

/// A delivery changes none of the fields that a response takes from its
/// request, and takes no entry away.
proof fn lemma_deliver_field(state: ResolutionView, upstream: UpstreamView, f: HeaderField)
    requires
        state.response.head.len() == HEADER_LEN,
        kept_field(f),
    ensures
        state.deliver(upstream).response.head.len() == HEADER_LEN,
        state.deliver(upstream).response.field(f) == state.response.field(f),
        state.response.questions.is_prefix_of(state.deliver(upstream).response.questions),
        state.response.answers.is_prefix_of(state.deliver(upstream).response.answers),
        state.response.authorities.is_prefix_of(state.deliver(upstream).response.authorities),
{
    let before = state.response;
    if state.pending.len() > 0 {
        match upstream_outcome(upstream) {
            Ok(OutcomeView::Answers(records)) => {
                let asked = before.push_question(state.pending[0]);
                lemma_push_counts(
                    before,
                    Push::Question(state.pending[0]),
                    f,
                );
                lemma_push_answers(asked, records, f);
            },
            Ok(OutcomeView::NameError(authority)) => {
                lemma_push_counts(before, Push::Authority(authority), f);
            },
            Err(_) => {
                lemma_write_then_read(before.head, HeaderField::Rcode, 2, f);
            },
        }
    }
}

/// A question that fails ends the resolution: the response gets result code
/// 2, keeps every entry that it held, gains none, and no question waits any
/// more.
pub proof fn lemma_failure(state: ResolutionView, upstream: UpstreamView)
    requires
        state.response.head.len() == HEADER_LEN,
        !state.finished(),
        upstream_outcome(upstream) is Err,
    ensures
        state.deliver(upstream).finished(),
        state.deliver(upstream).response.field(HeaderField::Rcode) == 2,
        state.deliver(upstream).response.questions == state.response.questions,
        state.deliver(upstream).response.answers == state.response.answers,
        state.deliver(upstream).response.authorities == state.response.authorities,
{
    lemma_write_then_read(state.response.head, HeaderField::Rcode, 2, HeaderField::Rcode);
}

/// A reply that says the name does not exist, and cites an authority, adds
/// that authority and nothing else; the result code stays as it was and the
/// next question is due.
pub proof fn lemma_name_error(state: ResolutionView, upstream: UpstreamView, authority: RecordView)
    requires
        state.response.head.len() == HEADER_LEN,
        !state.finished(),
        upstream_outcome(upstream) == Ok::<OutcomeView, ResolverError>(
            OutcomeView::NameError(authority),
        ),
    ensures
        state.deliver(upstream).pending == state.pending.drop_first(),
        state.deliver(upstream).response.field(HeaderField::Rcode) == state.response.field(
            HeaderField::Rcode,
        ),
        state.deliver(upstream).response.questions == state.response.questions,
        state.deliver(upstream).response.answers == state.response.answers,
        state.deliver(upstream).response.authorities == state.response.authorities.push(authority),
{
    lemma_push_counts(
        state.response,
        Push::Authority(authority),
        HeaderField::Rcode,
    );
}

/// A successful reply adds the question and the reply's answers, in order;
/// the result code stays as it was and the next question is due.
pub proof fn lemma_success(state: ResolutionView, upstream: UpstreamView, records: Seq<RecordView>)
    requires
        state.response.head.len() == HEADER_LEN,
        !state.finished(),
        upstream_outcome(upstream) == Ok::<OutcomeView, ResolverError>(
            OutcomeView::Answers(records),
        ),
    ensures
        state.deliver(upstream).pending == state.pending.drop_first(),
        state.deliver(upstream).response.field(HeaderField::Rcode) == state.response.field(
            HeaderField::Rcode,
        ),
        state.deliver(upstream).response.questions == state.response.questions.push(
            state.pending[0],
        ),
        state.deliver(upstream).response.answers == state.response.answers + records,
        state.deliver(upstream).response.authorities == state.response.authorities,
{
    let asked = state.response.push_question(state.pending[0]);
    lemma_push_counts(
        state.response,
        Push::Question(state.pending[0]),
        HeaderField::Rcode,
    );
    lemma_push_answers(asked, records, HeaderField::Rcode);
}

/// The answer given to `question` when no resolver is configured.
pub fn local_answer(question: Question) -> (answer: Answer)
    ensures
        answer@ == local_record(question@),
{
    let mut data: Vec<u8> = Vec::new();
    data.push(0);
    data.push(0);
    data.push(0);
    data.push(0);
    assert(data@ =~= seq![0u8, 0u8, 0u8, 0u8]);
    Answer { question, ttl: LOCAL_TTL, data }
}

/// What a decoded reply contributes to the response.
pub fn interpret_reply(reply: &DnsPacket) -> (r: Result<ResolutionOutcome, ResolverError>)
    ensures
        match reply_outcome(reply@) {
            Ok(outcome) => r is Ok && r->Ok_0@ == outcome,
            Err(e) => r == Err::<ResolutionOutcome, ResolverError>(e),
        },
{
    let rcode = reply.get_rcode();
    if rcode != 0 {
        if rcode == 3 {
            let mut authorities = reply.get_authorities();
            if authorities.len() == 0 {
                return Err(ResolverError::NoAuthority);
            }
            let first = authorities.swap_remove(0);
            return Ok(ResolutionOutcome::NameError(first));
        }
        return Err(ResolverError::Rcode(rcode));
    }
    Ok(ResolutionOutcome::Answers(reply.get_answers()))
}

/// What the transport's result contributes to the response.
pub fn interpret(upstream: &Upstream) -> (r: Result<ResolutionOutcome, ResolverError>)
    ensures
        match upstream_outcome(upstream@) {
            Ok(outcome) => r is Ok && r->Ok_0@ == outcome,
            Err(e) => r == Err::<ResolutionOutcome, ResolverError>(e),
        },
{
    match upstream {
        Upstream::Failed => Err(ResolverError::Unreachable),
        Upstream::Reply(bytes) => match DnsPacket::from_buf(bytes.as_slice()) {
            Err(e) => Err(ResolverError::Malformed(e)),
            Ok(reply) => interpret_reply(&reply),
        },
    }
}

/// The query that forwards `question` under the identifier `id`.
pub fn forward_query(id: u16, question: Question) -> (query: DnsPacket)
    ensures
        query@ == query_for(question@, id as nat),
{
    let mut query = DnsPacket::with_id(id);
    query.push_question(question);
    query.set_rd(1);
    query
}

/// A response in the making.
#[derive(Debug)]
pub struct Resolution {
    response: DnsPacket,
    questions: Vec<Question>,
    next: usize,
}

impl View for Resolution {
    type V = ResolutionView;

    closed spec fn view(&self) -> ResolutionView {
        ResolutionView {
            response: self.response@,
            pending: if self.next <= self.questions.len() {
                self.questions.deep_view().skip(self.next as int)
            } else {
                Seq::empty()
            },
        }
    }
}

impl Resolution {
    /// Starts to answer `request`. `forwarding` says whether a resolver is
    /// configured; without one the response is complete at once.
    pub fn begin(request: &DnsPacket, forwarding: bool) -> (r: Resolution)
        ensures
            r@ == ResolutionView::begin(request@, forwarding),
    {
        let mut response = DnsPacket::new();
        response.set_id(request.get_id());
        response.set_qr(1);
        response.set_rd(request.get_rd());
        let opcode = request.get_opcode();
        response.set_opcode(opcode);
        if opcode != 0 {
            response.set_rcode(ResponseCodes::NotImplemented);
            let r = Resolution { response, questions: Vec::new(), next: 0 };
            assert(r@.pending =~= Seq::empty());
            return r;
        }
        let questions = request.get_questions();
        if forwarding {
            let r = Resolution { response, questions, next: 0 };
            assert(r@.pending =~= request@.questions);
            return r;
        }
        let ghost start = response@;
        let ghost all = questions.deep_view();
        let mut i: usize = 0;
        proof {
            assert(all.skip(0) =~= all);
        }
        while i < questions.len()
            invariant
                i <= questions.len(),
                all == questions.deep_view(),
                answer_locally(start, all) == answer_locally(response@, all.skip(i as int)),
            decreases questions.len() - i,
        {
            let question = questions[i].clone();
            proof {
                assert(all.skip(i as int).drop_first() =~= all.skip(i as int + 1));
                assert(all.skip(i as int)[0] == question@);
            }
            response.push_question(question.clone());
            response.push_answer(local_answer(question));
            i += 1;
        }
        let r = Resolution { response, questions, next: i };
        assert(r@.pending =~= Seq::empty());
        r
    }

    /// Whether no question waits any more: the response is complete.
    pub fn is_finished(&self) -> (r: bool)
        ensures
            r == self@.finished(),
    {
        self.next >= self.questions.len()
    }

    /// The question that is to be forwarded next, if one waits.
    pub fn pending_question(&self) -> (r: Option<Question>)
        ensures
            self@.finished() ==> r is None,
            !self@.finished() ==> r is Some && r->Some_0@ == self@.pending[0],
    {
        if self.next >= self.questions.len() {
            None
        } else {
            Some(self.questions[self.next].clone())
        }
    }

    /// The query that forwards the next waiting question, under an
    /// identifier drawn at random.
    pub fn next_query(&self) -> (r: Option<DnsPacket>)
        ensures
            self@.finished() ==> r is None,
            !self@.finished() ==> r is Some && r->Some_0@ == query_for(
                self@.pending[0],
                r->Some_0@.field(HeaderField::Id),
            ),
    {
        if self.next >= self.questions.len() {
            return None;
        }
        let mut query = DnsPacket::new_query();
        let ghost id = query@.field(HeaderField::Id);
        let ghost q0 = query@;
        query.push_question(self.questions[self.next].clone());
        let ghost q1 = query@;
        query.set_rd(1);
        proof {
            lemma_header_field_range(PacketView::empty().head, HeaderField::Id);
            lemma_header_field_range(q0.head, HeaderField::Id);
            lemma_write_then_read(PacketView::empty().head, HeaderField::Id, id, HeaderField::Id);
            lemma_write_then_read(
                q0.head,
                HeaderField::QdCount,
                count_of(1) as nat,
                HeaderField::Id,
            );
            lemma_write_then_read(q1.head, HeaderField::Rd, 1, HeaderField::Id);
        }
        Some(query)
    }

    /// Takes what the transport brought back for the next waiting question
    /// and folds it into the response. Reports the error where the question
    /// failed; the response then carries result code 2 and is complete.
    /// With no question waiting, nothing happens.
    pub fn deliver(&mut self, upstream: &Upstream) -> (r: Result<(), ResolverError>)
        ensures
            final(self)@ == old(self)@.deliver(upstream@),
            r == old(self)@.deliver_result(upstream@),
    {
        if self.next >= self.questions.len() {
            return Ok(());
        }
        let question = self.questions[self.next].clone();
        proof {
            assert(self@.pending.drop_first() =~= self.questions.deep_view().skip(
                self.next as int + 1,
            ));
        }
        match interpret(upstream) {
            Ok(ResolutionOutcome::Answers(answers)) => {
                self.response.push_question(question);
                let ghost start = self.response@;
                let ghost all = answers.deep_view();
                let mut i: usize = 0;
                proof {
                    assert(all.skip(0) =~= all);
                }
                while i < answers.len()
                    invariant
                        i <= answers.len(),
                        all == answers.deep_view(),
                        self.questions == old(self).questions,
                        self.next == old(self).next,
                        push_answers(start, all) == push_answers(
                            self.response@,
                            all.skip(i as int),
                        ),
                    decreases answers.len() - i,
                {
                    proof {
                        assert(all.skip(i as int).drop_first() =~= all.skip(i as int + 1));
                        assert(all.skip(i as int)[0] == answers[i as int]@);
                    }
                    self.response.push_answer(answers[i].clone());
                    i += 1;
                }
                self.next += 1;
                Ok(())
            },
            Ok(ResolutionOutcome::NameError(authority)) => {
                self.response.push_authority(authority);
                self.next += 1;
                Ok(())
            },
            Err(e) => {
                self.response.set_rcode(ResponseCodes::ServerFailure);
                self.next = self.questions.len();
                proof {
                    assert(self@.pending =~= Seq::empty());
                }
                Err(e)
            },
        }
    }

    /// The response as it stands.
    pub fn into_response(self) -> (response: DnsPacket)
        ensures
            response@ == self@.response,
    {
        self.response
    }
}

} // verus!
