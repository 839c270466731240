use vstd::prelude::*;

use crate::bytes::{append_bytes, be16, be32, from_be16, push_be16, push_be32};
use crate::error::DnsError;
use crate::name::{clone_labels_from, compress_labels, offset_of, labels_wire, TableView, MAX_POINTER, decode_name_at, encode_name, expand_name, lemma_decoded_name_bytes, Name, NameView, References};
use crate::record::{data_len_field, Record, RecordView};
use crate::types::{OpCode, QClass, QType, ResponseCode};

verus! {

broadcast use vstd::string::group_string_axioms;

/// A question: a name, the type asked for and the class asked for.
#[derive(Clone, Debug, PartialEq, Eq)]
pub struct Question {
    qname: Name,
    qtype: QType,
    qclass: QClass,
}

/// What a [`Question`] is.
pub struct QuestionView {
    pub name: NameView,
    pub qtype: QType,
    pub qclass: QClass,
}

impl View for Question {
    type V = QuestionView;

    closed spec fn view(&self) -> QuestionView {
        QuestionView { name: self.qname@, qtype: self.qtype, qclass: self.qclass }
    }
}

/// The bytes that follow a question's name: its type and class.
pub open spec fn question_tail(q: QuestionView) -> Seq<u8> {
    be16(q.qtype.spec_code()) + be16(q.qclass.spec_code())
}

/// The wire form of a question.
pub open spec fn encode_question(q: QuestionView) -> Seq<u8> {
    encode_name(q.name) + question_tail(q)
}

/// The question whose wire form starts at `start`, or why it cannot be read.
pub open spec fn decode_question_at(b: Seq<u8>, start: int) -> Result<QuestionView, DnsError> {
    match decode_name_at(b, start) {
        None => Err(DnsError::CorruptName),
        Some(n) => {
            let m = start + encode_name(n).len();
            if m + 4 > b.len() {
                Err(DnsError::TruncatedQuestion)
            } else {
                let t = from_be16(b[m], b[m + 1]);
                let c = from_be16(b[m + 2], b[m + 3]);
                match QType::spec_from_code(t) {
                    None => Err(DnsError::InvalidType(t)),
                    Some(qtype) => match QClass::spec_from_code(c) {
                        None => Err(DnsError::InvalidClass(c)),
                        Some(qclass) => Ok(QuestionView { name: n, qtype, qclass }),
                    },
                }
            }
        },
    }
}

impl Question {
    pub fn new(qname: Name, qtype: QType, qclass: QClass) -> (r: Question)
        ensures
            r@ == (QuestionView { name: qname@, qtype, qclass }),
    {
        Question { qname, qtype, qclass }
    }

    /// A copy of the question.
    pub fn copy(&self) -> (r: Question)
        ensures
            r@ == self@,
    {
        Question { qname: self.qname.copy(), qtype: self.qtype, qclass: self.qclass }
    }

    /// The number of bytes of the question's wire form.
    #[allow(clippy::len_without_is_empty)]
    pub fn len(&self) -> (r: usize)
        requires
            encode_question(self@).len() <= usize::MAX,
        ensures
            r == encode_question(self@).len(),
    {
        self.qname.len() + 4
    }

    pub fn name(&self) -> (r: &Name)
        ensures
            r@ == self@.name,
    {
        &self.qname
    }

    pub fn qtype(&self) -> (r: QType)
        ensures
            r == self@.qtype,
    {
        self.qtype
    }

    pub fn qclass(&self) -> (r: QClass)
        ensures
            r == self@.qclass,
    {
        self.qclass
    }

    /// The question with its name expanded against `references`.
    pub fn expand(&self, references: &References) -> (r: Result<Question, DnsError>)
        ensures
            match expand_name(self@.name, references@) {
                Some(n) => r matches Ok(q) && q@ == (QuestionView { name: n, ..self@ }),
                None => r == Err::<Question, DnsError>(DnsError::CorruptName),
            },
    {
        let qname = self.qname.expand(references)?;
        Ok(Question { qname, qtype: self.qtype, qclass: self.qclass })
    }

    /// The question with its name compressed against `references`.
    pub fn compress(&self, references: &References) -> (r: Result<Question, DnsError>)
        ensures
            self@.name.pointer is Some ==> r == Err::<Question, DnsError>(
                DnsError::AlreadyCompressed,
            ),
            self@.name.pointer is None ==> (r matches Ok(q) && q@ == (QuestionView {
                name: compress_labels(self@.name.labels, references@),
                ..self@
            })),
    {
        let qname = self.qname.compress(references)?;
        Ok(Question { qname, qtype: self.qtype, qclass: self.qclass })
    }

    /// The wire form of the question.
    pub fn to_vec(&self) -> (r: Vec<u8>)
        ensures
            r@ == encode_question(self@),
    {
        let mut out = self.qname.to_vec();
        self.push_tail(&mut out);
        proof {
            assert(out@ =~= encode_question(self@));
        }
        out
    }

    /// Appends the bytes that follow the question's name.
    fn push_tail(&self, out: &mut Vec<u8>)
        ensures
            final(out)@ == old(out)@ + question_tail(self@),
    {
        push_be16(out, self.qtype.into());
        push_be16(out, self.qclass.into());
        proof {
            assert(final(out)@ =~= old(out)@ + question_tail(self@));
        }
    }

    /// Decodes the question whose wire form starts at `start` of `buffer`.
    pub fn decode(buffer: &[u8], start: usize) -> (r: Result<Question, DnsError>)
        ensures
            match decode_question_at(buffer@, start as int) {
                Ok(q) => r matches Ok(x) && x@ == q,
                Err(e) => r == Err::<Question, DnsError>(e),
            },
    {
        let qname = match Name::decode(buffer, start) {
            Ok(n) => n,
            Err(e) => {
                return Err(e);
            },
        };
        let blen = buffer.len();
        proof {
            lemma_decoded_name_bytes(buffer@, start as int);
            assert(encode_name(qname@).len() <= blen);
        }
        let meta = start + qname.len();
        if buffer.len() < 4 || meta > buffer.len() - 4 {
            return Err(DnsError::TruncatedQuestion);
        }
        let t: u16 = (buffer[meta] as u16) * 256 + buffer[meta + 1] as u16;
        let c: u16 = (buffer[meta + 2] as u16) * 256 + buffer[meta + 3] as u16;
        let qtype = QType::try_from(t);
        let qtype = match qtype {
            Ok(v) => v,
            Err(e) => {
                return Err(e);
            },
        };
        let qclass = QClass::try_from(c);
        let qclass = match qclass {
            Ok(v) => v,
            Err(e) => {
                return Err(e);
            },
        };
        Ok(Question { qname, qtype, qclass })
    }

    /// Decodes a question from the start of `value`.
    pub fn try_from(value: &[u8]) -> (r: Result<Question, DnsError>)
        ensures
            match decode_question_at(value@, 0) {
                Ok(q) => r matches Ok(x) && x@ == q,
                Err(e) => r == Err::<Question, DnsError>(e),
            },
    {
        Question::decode(value, 0)
    }
}

/// An answer: a name, the record it resolves to, and a time to live.
#[derive(Clone, Debug)]
pub struct Answer {
    name: Name,
    record: Record,
    ttl: u32,
}

/// What an [`Answer`] is.
pub struct AnswerView {
    pub name: NameView,
    pub record: RecordView,
    pub ttl: u32,
}

impl View for Answer {
    type V = AnswerView;

    closed spec fn view(&self) -> AnswerView {
        AnswerView { name: self.name@, record: self.record@, ttl: self.ttl }
    }
}

/// The bytes that follow an answer's name: type, class, time to live, data
/// length and data.
pub open spec fn answer_tail(a: AnswerView) -> Seq<u8> {
    be16(a.record.rrtype.spec_code()) + be16(a.record.rrclass.spec_code()) + be32(a.ttl) + be16(
        data_len_field(a.record.data),
    ) + a.record.data
}

/// The wire form of an answer.
pub open spec fn encode_answer(a: AnswerView) -> Seq<u8> {
    encode_name(a.name) + answer_tail(a)
}

impl Answer {
    pub fn new(name: &Name, record: &Record, ttl: u32) -> (r: Answer)
        ensures
            r@ == (AnswerView { name: name@, record: record@, ttl }),
    {
        Answer { name: name.copy(), record: record.copy(), ttl }
    }

    /// A copy of the answer.
    pub fn copy(&self) -> (r: Answer)
        ensures
            r@ == self@,
    {
        Answer { name: self.name.copy(), record: self.record.copy(), ttl: self.ttl }
    }

    pub fn name(&self) -> (r: &Name)
        ensures
            r@ == self@.name,
    {
        &self.name
    }

    pub fn record(&self) -> (r: &Record)
        ensures
            r@ == self@.record,
    {
        &self.record
    }

    pub fn ttl(&self) -> (r: u32)
        ensures
            r == self@.ttl,
    {
        self.ttl
    }

    /// The answer with its name compressed against `references`.
    pub fn compress(&self, references: &References) -> (r: Result<Answer, DnsError>)
        ensures
            self@.name.pointer is Some ==> r == Err::<Answer, DnsError>(
                DnsError::AlreadyCompressed,
            ),
            self@.name.pointer is None ==> (r matches Ok(a) && a@ == (AnswerView {
                name: compress_labels(self@.name.labels, references@),
                ..self@
            })),
    {
        let name = self.name.compress(references)?;
        Ok(Answer { name, record: self.record.copy(), ttl: self.ttl })
    }

    /// The wire form of the answer.
    pub fn to_vec(&self) -> (r: Vec<u8>)
        ensures
            r@ == encode_answer(self@),
    {
        let mut out = self.name.to_vec();
        self.push_tail(&mut out);
        proof {
            assert(out@ =~= encode_answer(self@));
        }
        out
    }

    /// Appends the bytes that follow the answer's name.
    fn push_tail(&self, out: &mut Vec<u8>)
        ensures
            final(out)@ == old(out)@ + answer_tail(self@),
    {
        push_be16(out, self.record.rrtype().clone().into());
        push_be16(out, self.record.rrclass().clone().into());
        push_be32(out, self.ttl);
        push_be16(out, (self.record.data().len() % 0x1_0000) as u16);
        append_bytes(out, self.record.data().as_slice());
        proof {
            assert(final(out)@ =~= old(out)@ + answer_tail(self@));
        }
    }
}


/// The views of a sequence of questions.
pub open spec fn questions_view(qs: Seq<Question>) -> Seq<QuestionView> {
    qs.map_values(|q: Question| q@)
}

/// A query decoded from a datagram.
#[derive(Clone, Debug, PartialEq, Eq)]
pub struct Query {
    response_code: ResponseCode,
    id: u16,
    opcode: OpCode,
    truncation: bool,
    recursion_desired: bool,
    questions: Vec<Question>,
}

/// What a [`Query`] is.
pub struct QueryView {
    pub response_code: ResponseCode,
    pub id: u16,
    pub opcode: OpCode,
    pub truncation: bool,
    pub recursion_desired: bool,
    pub questions: Seq<QuestionView>,
}

impl View for Query {
    type V = QueryView;

    closed spec fn view(&self) -> QueryView {
        QueryView {
            response_code: self.response_code,
            id: self.id,
            opcode: self.opcode,
            truncation: self.truncation,
            recursion_desired: self.recursion_desired,
            questions: questions_view(self.questions@),
        }
    }
}

/// The table after registering, for each of the first `k` labels of a
/// question's own labels `own` written at `ptr`, the suffix of the expanded
/// labels `full` that starts there, at the label's offset. Offsets that no
/// pointer can hold are left out.
pub open spec fn register_own(
    t: TableView,
    own: Seq<Seq<char>>,
    full: Seq<Seq<char>>,
    ptr: int,
    k: int,
) -> TableView
    decreases k,
{
    if k <= 0 {
        t
    } else {
        let t2 = register_own(t, own, full, ptr, k - 1);
        let off = ptr + labels_wire(own.take(k - 1)).len();
        if off <= MAX_POINTER {
            t2.push((full.skip(k - 1), off as u16))
        } else {
            t2
        }
    }
}

/// The table after registering a decoded question written at `ptr`: every
/// suffix at the offset of its first own label; a name of no own labels
/// registers its expanded labels at its own offset.
pub open spec fn register_question(
    t: TableView,
    own: Seq<Seq<char>>,
    full: Seq<Seq<char>>,
    ptr: int,
) -> TableView {
    let t2 = register_own(t, own, full, ptr, own.len() as int);
    if own.len() == 0 && ptr <= MAX_POINTER {
        t2.push((full, ptr as u16))
    } else {
        t2
    }
}

/// Decodes `remaining` questions from `ptr` on, against the table `t` of the
/// suffixes registered so far, after the questions `acc`. Returns the
/// questions read and whether all of them could be read: at the first
/// question that cannot be read or expanded, reading stops.
pub open spec fn decode_questions(
    b: Seq<u8>,
    ptr: int,
    remaining: int,
    t: TableView,
    acc: Seq<QuestionView>,
) -> (Seq<QuestionView>, bool)
    decreases remaining,
{
    if remaining <= 0 {
        (acc, true)
    } else if ptr < 0 || ptr >= b.len() {
        (acc, false)
    } else {
        match decode_question_at(b, ptr) {
            Err(_) => (acc, false),
            Ok(q) => match expand_name(q.name, t) {
                None => (acc, false),
                Some(full) => decode_questions(
                    b,
                    ptr + encode_question(q).len(),
                    remaining - 1,
                    register_question(t, q.name.labels, full.labels, ptr),
                    acc.push(QuestionView { name: full, ..q }),
                ),
            },
        }
    }
}

/// The query that header bytes hold, before any question is read.
pub open spec fn decode_header(b: Seq<u8>) -> QueryView {
    QueryView {
        response_code: ResponseCode::FormatError,
        id: from_be16(b[0], b[1]),
        opcode: if b.len() > 2 {
            OpCode::spec_from_u8(((b[2] / 8) % 16) as u8)
        } else {
            OpCode::Query
        },
        truncation: b.len() > 2 && (b[2] / 2) % 2 == 1,
        recursion_desired: b.len() > 2 && b[2] % 2 == 1,
        questions: seq![],
    }
}

/// The query that a datagram holds. Byte 2 holds the response bit (bit 7),
/// the opcode (bits 3 to 6), TC (bit 1) and RD (bit 0); the top four bits of
/// byte 3 must be zero. Without an id, or with the response bit set, there is
/// no query. Reserved bits set, a header under 12 bytes, or a question that
/// cannot be read leave the query with what was read and the response code
/// FormatError; otherwise the code is NoError for a standard query and
/// NotImplemented for any other opcode.
pub open spec fn decode_query(b: Seq<u8>) -> Result<QueryView, DnsError> {
    if b.len() < 2 {
        Err(DnsError::MissingId)
    } else if b.len() > 2 && b[2] >= 0x80 {
        Err(DnsError::NotAQuery)
    } else {
        let h = decode_header(b);
        if (b.len() > 3 && b[3] >= 16) || b.len() < 12 {
            Ok(h)
        } else {
            let (qs, complete) = decode_questions(
                b,
                12,
                from_be16(b[4], b[5]) as int,
                seq![],
                seq![],
            );
            Ok(
                QueryView {
                    questions: qs,
                    response_code: if !complete {
                        ResponseCode::FormatError
                    } else if h.opcode is Query {
                        ResponseCode::NoError
                    } else {
                        ResponseCode::NotImplemented
                    },
                    ..h
                },
            )
        }
    }
}

/// Registers a decoded question written at `ptr` (see [`register_question`]).
fn register_decoded(references: &mut References, own: &Name, full: &Name, ptr: usize)
    requires
        ptr + encode_name(own@).len() <= usize::MAX,
        own@.labels.len() <= full@.labels.len(),
    ensures
        final(references)@ == register_question(
            old(references)@,
            own@.labels,
            full@.labels,
            ptr as int,
        ),
{
    let own_labels = own.labels();
    let full_labels = full.labels();
    let ghost ol = own@.labels;
    let mut ref_ptr: usize = ptr;
    let mut k: usize = 0;
    proof {
        assert(ol.take(0) =~= Seq::<Seq<char>>::empty());
    }
    while k < own_labels.len()
        invariant
            0 <= k <= ol.len(),
            labels_wire(ol).len() <= encode_name(own@).len(),
            ol == own_labels.deep_view(),
            ol.len() <= full_labels@.len(),
            ptr + encode_name(own@).len() <= usize::MAX,
            ref_ptr == ptr + labels_wire(ol.take(k as int)).len(),
            references@ == register_own(
                old(references)@,
                ol,
                full_labels.deep_view(),
                ptr as int,
                k as int,
            ),
        decreases ol.len() - k,
    {
        proof {
            assert(ol.take(k + 1).drop_last() =~= ol.take(k as int));
            crate::name::lemma_labels_wire_concat(ol.take(k + 1), ol.skip(k + 1));
            assert(ol.take(k + 1) + ol.skip(k + 1) =~= ol);
            assert(own_labels[k as int]@ == ol[k as int]);
            assert(ol.take(k + 1).last() == ol[k as int]);
        }
        if ref_ptr <= MAX_POINTER as usize {
            references.insert(clone_labels_from(full_labels, k), ref_ptr as u16);
        }
        ref_ptr = ref_ptr + own_labels[k].as_str().len() + 1;
        k += 1;
    }
    if own_labels.len() == 0 && ptr <= MAX_POINTER as usize {
        let all = clone_labels_from(full_labels, 0);
        proof {
            assert(full_labels.deep_view().skip(0) =~= full_labels.deep_view());
        }
        references.insert(all, ptr as u16);
    }
}

impl Query {
    pub fn id(&self) -> (r: u16)
        ensures
            r == self@.id,
    {
        self.id
    }

    pub fn opcode(&self) -> (r: OpCode)
        ensures
            r == self@.opcode,
    {
        self.opcode
    }

    pub fn truncation(&self) -> (r: bool)
        ensures
            r == self@.truncation,
    {
        self.truncation
    }

    pub fn recursion_desired(&self) -> (r: bool)
        ensures
            r == self@.recursion_desired,
    {
        self.recursion_desired
    }

    /// A copy of the questions.
    pub fn questions(&self) -> (r: Vec<Question>)
        ensures
            questions_view(r@) == self@.questions,
    {
        copy_questions(&self.questions)
    }

    pub fn response_code(&self) -> (r: ResponseCode)
        ensures
            r == self@.response_code,
    {
        self.response_code
    }

    /// Decodes a query from a received datagram. Its question names come
    /// out expanded.
    pub fn try_from(value: &[u8]) -> (r: Result<Query, DnsError>)
        ensures
            match decode_query(value@) {
                Ok(q) => r matches Ok(x) && x@ == q,
                Err(e) => r == Err::<Query, DnsError>(e),
            },
            r matches Ok(x) ==> forall|i: int|
                0 <= i < x@.questions.len() ==> (#[trigger] x@.questions[i]).name.pointer is None,
    {
        let r = Query::decode_datagram(value);
        proof {
            if r is Ok {
                let x = r->Ok_0;
                assert forall|i: int| 0 <= i < x@.questions.len() implies (
                #[trigger] x@.questions[i]).name.pointer is None by {
                    assert(x@.questions[i] == x.questions@[i]@);
                }
            }
        }
        r
    }

    fn decode_datagram(value: &[u8]) -> (r: Result<Query, DnsError>)
        ensures
            match decode_query(value@) {
                Ok(q) => r matches Ok(x) && x@ == q,
                Err(e) => r == Err::<Query, DnsError>(e),
            },
            r matches Ok(x) ==> forall|i: int|
                0 <= i < x.questions@.len() ==> (#[trigger] x.questions@[i])@.name.pointer is None,
    {

        let ghost b = value@;
        let len = value.len();
        if len < 2 {
            return Err(DnsError::MissingId);
        }
        let id: u16 = (value[0] as u16) * 256 + value[1] as u16;
        let mut opcode = OpCode::Query;
        let mut truncation = false;
        let mut recursion_desired = false;
        if len > 2 {
            let flags = value[2];
            if flags >= 0x80 {
                return Err(DnsError::NotAQuery);
            }
            opcode = OpCode::from((flags / 8) % 16);
            truncation = (flags / 2) % 2 == 1;
            recursion_desired = flags % 2 == 1;
        }
        let mut query = Query {
            response_code: ResponseCode::FormatError,
            id,
            opcode,
            truncation,
            recursion_desired,
            questions: Vec::new(),
        };
        proof {
            assert(questions_view(query.questions@) =~= Seq::<QuestionView>::empty());
            assert(query@ == decode_header(b));
        }
        if len > 3 && value[3] >= 16 {
            return Ok(query);
        }
        if len < 12 {
            return Ok(query);
        }
        let mut references = References::new();
        let mut remaining: u16 = (value[4] as u16) * 256 + value[5] as u16;
        let mut ptr: usize = 12;
        while remaining > 0
            invariant
                b == value@,
                len == b.len(),
                12 <= len,
                b[3] < 16,
                b[2] < 0x80,
                ptr <= len,
                query@ == (QueryView {
                    questions: questions_view(query.questions@),
                    ..decode_header(b)
                }),
                forall|i: int|
                    0 <= i < query.questions@.len() ==> (#[trigger] query.questions@[i])@.name.pointer is None,
                decode_questions(b, 12, from_be16(b[4], b[5]) as int, seq![], seq![])
                    == decode_questions(
                    b,
                    ptr as int,
                    remaining as int,
                    references@,
                    questions_view(query.questions@),
                ),
            decreases remaining,
        {
            if ptr >= len {
                return Ok(query);
            }
            let question = match Question::decode(value, ptr) {
                Ok(q) => q,
                Err(_) => {
                    return Ok(query);
                },
            };
            let full = match question.name().expand(&references) {
                Ok(n) => n,
                Err(_) => {
                    return Ok(query);
                },
            };
            proof {
                lemma_decoded_name_bytes(b, ptr as int);
                assert(full@.labels == question@.name.labels + (full@.labels.skip(
                    question@.name.labels.len() as int,
                ))) by {
                    assert(full@.labels =~= question@.name.labels + (full@.labels.skip(
                        question@.name.labels.len() as int,
                    )));
                }
            }
            register_decoded(&mut references, question.name(), &full, ptr);
            ptr = ptr + question.len();
            remaining = remaining - 1;
            let ghost before = query.questions@;
            query.questions.push(Question { qname: full, qtype: question.qtype, qclass: question.qclass });
            proof {
                assert(questions_view(query.questions@) =~= questions_view(before).push(
                    QuestionView { name: full@, ..question@ },
                ));
                assert forall|i: int| 0 <= i < query.questions@.len() implies (
                #[trigger] query.questions@[i])@.name.pointer is None by {
                    if i < before.len() {
                        assert(query.questions@[i] == before[i]);
                    }
                }
            }
        }
        query.response_code = match query.opcode {
            OpCode::Query => ResponseCode::NoError,
            _ => ResponseCode::NotImplemented,
        };
        Ok(query)
    }
}

/// Copies of the questions, in order.
fn copy_questions(qs: &Vec<Question>) -> (r: Vec<Question>)
    ensures
        questions_view(r@) == questions_view(qs@),
{
    let mut r: Vec<Question> = Vec::new();
    let mut i: usize = 0;
    while i < qs.len()
        invariant
            0 <= i <= qs@.len(),
            questions_view(r@) == questions_view(qs@.take(i as int)),
        decreases qs@.len() - i,
    {
        let ghost before = r@;
        r.push(qs[i].copy());
        proof {
            assert(questions_view(r@) =~= questions_view(before).push(qs@[i as int]@));
            assert(questions_view(qs@.take(i + 1)) =~= questions_view(qs@.take(i as int)).push(
                qs@[i as int]@,
            ));
        }
        i += 1;
    }
    proof {
        assert(qs@.take(qs@.len() as int) =~= qs@);
    }
    r
}


/// The views of a sequence of answers.
pub open spec fn answers_view(a: Seq<Answer>) -> Seq<AnswerView> {
    a.map_values(|x: Answer| x@)
}

/// A response message, ready to be encoded.
#[derive(Clone, Debug)]
pub struct Response {
    id: u16,
    opcode: OpCode,
    truncation: bool,
    authoritative_answer: bool,
    recursion_desired: bool,
    recursion_available: bool,
    response_code: ResponseCode,
    questions: Vec<Question>,
    answers: Vec<Answer>,
}

/// What a [`Response`] is.
pub struct ResponseView {
    pub id: u16,
    pub opcode: OpCode,
    pub truncation: bool,
    pub authoritative_answer: bool,
    pub recursion_desired: bool,
    pub recursion_available: bool,
    pub response_code: ResponseCode,
    pub questions: Seq<QuestionView>,
    pub answers: Seq<AnswerView>,
}

impl View for Response {
    type V = ResponseView;

    closed spec fn view(&self) -> ResponseView {
        ResponseView {
            id: self.id,
            opcode: self.opcode,
            truncation: self.truncation,
            authoritative_answer: self.authoritative_answer,
            recursion_desired: self.recursion_desired,
            recursion_available: self.recursion_available,
            response_code: self.response_code,
            questions: questions_view(self.questions@),
            answers: answers_view(self.answers@),
        }
    }
}

/// A count as the 16-bit field that carries it.
pub open spec fn count_field(n: nat) -> u16 {
    (n % 0x1_0000) as u16
}

/// Byte 2 of a response header: the response bit, the opcode, AA, TC, RD.
pub open spec fn flags_byte(r: ResponseView) -> u8 {
    (128 + (r.opcode.spec_to_u8() % 16) * 8 + (if r.authoritative_answer {
        4int
    } else {
        0
    }) + (if r.truncation {
        2int
    } else {
        0
    }) + (if r.recursion_desired {
        1int
    } else {
        0
    })) as u8
}

/// Byte 3 of a response header: RA, then the response code.
pub open spec fn code_byte(r: ResponseView) -> u8 {
    ((if r.recursion_available {
        128int
    } else {
        0
    }) + r.response_code.spec_code()) as u8
}

/// The 12-byte header of a response; authority and additional counts are zero.
pub open spec fn header_bytes(r: ResponseView) -> Seq<u8> {
    be16(r.id) + seq![flags_byte(r), code_byte(r)] + be16(count_field(r.questions.len()))
        + be16(count_field(r.answers.len())) + seq![0u8, 0u8, 0u8, 0u8]
}

/// The entries of the question section: labels of each name, then the bytes
/// that follow it.
pub open spec fn question_entries(qs: Seq<QuestionView>) -> Seq<(Seq<Seq<char>>, Seq<u8>)> {
    qs.map_values(|q: QuestionView| (q.name.labels, question_tail(q)))
}

/// The entries of the answer section.
pub open spec fn answer_entries(a: Seq<AnswerView>) -> Seq<(Seq<Seq<char>>, Seq<u8>)> {
    a.map_values(|x: AnswerView| (x.name.labels, answer_tail(x)))
}

/// The table after registering, for each of the first `k` labels of `ls`
/// written at `off`, the suffix that starts there at the label's offset,
/// unless that suffix is registered already (the first occurrence wins) or
/// no pointer can hold the offset.
pub open spec fn register_encoded(t: TableView, ls: Seq<Seq<char>>, off: int, k: int) -> TableView
    decreases k,
{
    if k <= 0 {
        t
    } else {
        let t2 = register_encoded(t, ls, off, k - 1);
        let o = off + labels_wire(ls.take(k - 1)).len();
        if o <= MAX_POINTER && offset_of(t2, ls.skip(k - 1)) is None {
            t2.push((ls.skip(k - 1), o as u16))
        } else {
            t2
        }
    }
}

/// Writes one entry after the bytes `st.1`, with the table `st.0`: its name
/// compressed against the table, then its tail; then registers the suffixes
/// of the labels spelled out.
pub open spec fn encode_entry(
    st: (TableView, Seq<u8>),
    e: (Seq<Seq<char>>, Seq<u8>),
) -> (TableView, Seq<u8>) {
    let c = compress_labels(e.0, st.0);
    (register_encoded(st.0, e.0, st.1.len() as int, c.labels.len() as int), st.1 + encode_name(c)
        + e.1)
}

/// Writes the entries one after the other, sharing one table.
pub open spec fn encode_entries(
    st: (TableView, Seq<u8>),
    es: Seq<(Seq<Seq<char>>, Seq<u8>)>,
) -> (TableView, Seq<u8>)
    decreases es.len(),
{
    if es.len() == 0 {
        st
    } else {
        encode_entry(encode_entries(st, es.drop_last()), es.last())
    }
}

/// The wire form of a response: the header, then the questions and the
/// answers with their names compressed against one table for the message.
pub open spec fn encode_response(r: ResponseView) -> Seq<u8> {
    encode_entries(
        (seq![], header_bytes(r)),
        question_entries(r.questions) + answer_entries(r.answers),
    ).1
}

/// No question or answer name carries a pointer: each can be compressed.
pub open spec fn names_expanded(r: ResponseView) -> bool {
    &&& forall|i: int| 0 <= i < r.questions.len() ==> (#[trigger] r.questions[i]).name.pointer is None
    &&& forall|i: int| 0 <= i < r.answers.len() ==> (#[trigger] r.answers[i]).name.pointer is None
}

/// Registers the spelled-out suffixes of `ls` written at `off` (see
/// [`register_encoded`]).
fn register_written(references: &mut References, ls: &Vec<String>, off: usize, kept: usize)
    requires
        kept <= ls@.len(),
    ensures
        final(references)@ == register_encoded(
            old(references)@,
            ls.deep_view(),
            off as int,
            kept as int,
        ),
{
    let ghost l = ls.deep_view();
    let mut ref_ptr: usize = off;
    let mut k: usize = 0;
    while k < kept
        invariant
            0 <= k <= kept <= l.len(),
            l == ls.deep_view(),
            ref_ptr == off + labels_wire(l.take(k as int)).len() || (ref_ptr > MAX_POINTER && off
                + labels_wire(l.take(k as int)).len() > MAX_POINTER),
            references@ == register_encoded(old(references)@, l, off as int, k as int),
        decreases kept - k,
    {
        proof {
            assert(l.take(k + 1).drop_last() =~= l.take(k as int));
            assert(ls[k as int]@ == l[k as int]);
            assert(l.take(k + 1).last() == l[k as int]);
            assert(labels_wire(l.take(k + 1)).len() == labels_wire(l.take(k as int)).len() + 1
                + crate::name::label_bytes(l[k as int]).len());
        }
        if ref_ptr <= MAX_POINTER as usize {
            if references.offset_of_suffix(ls, k).is_none() {
                references.insert(clone_labels_from(ls, k), ref_ptr as u16);
            }
            let n = ls[k].as_str().as_bytes().len();
            if n > MAX_POINTER as usize {
                ref_ptr = MAX_POINTER as usize + 1;
            } else {
                ref_ptr = ref_ptr + n + 1;
            }
        }
        k += 1;
    }
}

/// Writes a name compressed against `references`, then registers its
/// spelled-out suffixes at the offsets they occupy.
fn write_name(out: &mut Vec<u8>, references: &mut References, name: &Name)
    requires
        name@.pointer is None,
    ensures
        (final(references)@, final(out)@) == encode_entry(
            (old(references)@, old(out)@),
            (name@.labels, seq![]),
        ),
{
    let compressed = match name.compress(references) {
        Ok(c) => c,
        Err(_) => {
            return;
        },
    };
    let bytes = compressed.to_vec();
    let off = out.len();
    let kept = compressed.labels().len();
    proof {
        crate::name::lemma_compress_keeps_prefix(name@.labels, old(references)@, 0);
    }
    register_written(references, name.labels(), off, kept);
    append_bytes(out, bytes.as_slice());
    proof {
        assert(final(out)@ =~= old(out)@ + encode_name(compressed@) + Seq::<u8>::empty());
    }
}


impl Response {
    pub fn builder() -> (r: ResponseBuilder)
        ensures
            r@ == ResponseBuilder::spec_default(),
    {
        ResponseBuilder::default()
    }

    pub fn id(&self) -> (r: u16)
        ensures
            r == self@.id,
    {
        self.id
    }

    pub fn questions(&self) -> (r: &Vec<Question>)
        ensures
            questions_view(r@) == self@.questions,
    {
        &self.questions
    }

    pub fn answers(&self) -> (r: &Vec<Answer>)
        ensures
            answers_view(r@) == self@.answers,
    {
        &self.answers
    }

    /// The wire form of the response. Every name is compressed against one
    /// table for the whole message, which starts empty; offsets count from
    /// the start of the header.
    pub fn to_bytes(&self) -> (r: Vec<u8>)
        requires
            names_expanded(self@),
        ensures
            r@ == encode_response(self@),
    {
        let mut out: Vec<u8> = Vec::new();
        self.push_header(&mut out);
        proof {
            assert(out@ =~= header_bytes(self@));
        }
        let mut references = References::new();
        proof {
            assert forall|i: int| 0 <= i < self.questions@.len() implies (
            #[trigger] self.questions@[i])@.name.pointer is None by {
                assert(self@.questions[i] == self.questions@[i]@);
            }
            assert forall|i: int| 0 <= i < self.answers@.len() implies (
            #[trigger] self.answers@[i])@.name.pointer is None by {
                assert(self@.answers[i] == self.answers@[i]@);
            }
        }
        write_questions(&mut out, &mut references, &self.questions);
        write_answers(&mut out, &mut references, &self.answers);
        proof {
            lemma_encode_entries_concat(
                (seq![], header_bytes(self@)),
                question_entries(self@.questions),
                answer_entries(self@.answers),
            );
        }
        out
    }

    /// Appends the 12-byte header.
    fn push_header(&self, out: &mut Vec<u8>)
        ensures
            final(out)@ == old(out)@ + header_bytes(self@),
    {
        push_be16(out, self.id);
        let oc: u8 = self.opcode.into();
        let aa: u8 = if self.authoritative_answer {
            4
        } else {
            0
        };
        let tc: u8 = if self.truncation {
            2
        } else {
            0
        };
        let rd: u8 = if self.recursion_desired {
            1
        } else {
            0
        };
        out.push(128 + (oc % 16) * 8 + aa + tc + rd);
        let ra: u8 = if self.recursion_available {
            128
        } else {
            0
        };
        let rc: u8 = self.response_code.into();
        out.push(ra + rc);
        push_be16(out, (self.questions.len() % 0x1_0000) as u16);
        push_be16(out, (self.answers.len() % 0x1_0000) as u16);
        out.push(0);
        out.push(0);
        out.push(0);
        out.push(0);
        proof {
            assert(final(out)@ =~= old(out)@ + header_bytes(self@));
        }
    }
}

/// Writing two lists of entries one after the other is writing the first,
/// then the second from where the first ended.
pub proof fn lemma_encode_entries_concat(
    st: (TableView, Seq<u8>),
    a: Seq<(Seq<Seq<char>>, Seq<u8>)>,
    b: Seq<(Seq<Seq<char>>, Seq<u8>)>,
)
    ensures
        encode_entries(st, a + b) == encode_entries(encode_entries(st, a), b),
    decreases b.len(),
{
    if b.len() == 0 {
        assert(a + b =~= a);
    } else {
        lemma_encode_entries_concat(st, a, b.drop_last());
        assert((a + b).drop_last() =~= a + b.drop_last());
        assert((a + b).last() == b.last());
    }
}

/// Writes the questions one after the other, sharing the table.
fn write_questions(out: &mut Vec<u8>, references: &mut References, qs: &Vec<Question>)
    requires
        forall|i: int| 0 <= i < qs@.len() ==> (#[trigger] qs@[i])@.name.pointer is None,
    ensures
        (final(references)@, final(out)@) == encode_entries(
            (old(references)@, old(out)@),
            question_entries(questions_view(qs@)),
        ),
{
    let ghost st0 = (references@, out@);
    let ghost es = question_entries(questions_view(qs@));
    let mut i: usize = 0;
    proof {
        assert(es.take(0) =~= Seq::<(Seq<Seq<char>>, Seq<u8>)>::empty());
    }
    while i < qs.len()
        invariant
            0 <= i <= qs@.len(),
            forall|i: int| 0 <= i < qs@.len() ==> (#[trigger] qs@[i])@.name.pointer is None,
            es == question_entries(questions_view(qs@)),
            (references@, out@) == encode_entries(st0, es.take(i as int)),
        decreases qs@.len() - i,
    {
        let q = &qs[i];
        let ghost st = (references@, out@);
        write_name(out, references, q.name());
        q.push_tail(out);
        proof {
            assert(es.take(i + 1).drop_last() =~= es.take(i as int));
            assert(es.take(i + 1).last() == es[i as int]);
            assert(es[i as int] == (q@.name.labels, question_tail(q@)));
            assert(out@ =~= encode_entry(st, es[i as int]).1);
        }
        i += 1;
    }
    proof {
        assert(es.take(es.len() as int) =~= es);
    }
}

/// Writes the answers one after the other, sharing the table.
fn write_answers(out: &mut Vec<u8>, references: &mut References, a: &Vec<Answer>)
    requires
        forall|i: int| 0 <= i < a@.len() ==> (#[trigger] a@[i])@.name.pointer is None,
    ensures
        (final(references)@, final(out)@) == encode_entries(
            (old(references)@, old(out)@),
            answer_entries(answers_view(a@)),
        ),
{
    let ghost st0 = (references@, out@);
    let ghost es = answer_entries(answers_view(a@));
    let mut i: usize = 0;
    proof {
        assert(es.take(0) =~= Seq::<(Seq<Seq<char>>, Seq<u8>)>::empty());
    }
    while i < a.len()
        invariant
            0 <= i <= a@.len(),
            forall|i: int| 0 <= i < a@.len() ==> (#[trigger] a@[i])@.name.pointer is None,
            es == answer_entries(answers_view(a@)),
            (references@, out@) == encode_entries(st0, es.take(i as int)),
        decreases a@.len() - i,
    {
        let x = &a[i];
        let ghost st = (references@, out@);
        write_name(out, references, x.name());
        x.push_tail(out);
        proof {
            assert(es.take(i + 1).drop_last() =~= es.take(i as int));
            assert(es.take(i + 1).last() == es[i as int]);
            assert(es[i as int] == (x@.name.labels, answer_tail(x@)));
            assert(out@ =~= encode_entry(st, es[i as int]).1);
        }
        i += 1;
    }
    proof {
        assert(es.take(es.len() as int) =~= es);
    }
}

/// Builds a [`Response`] field by field. Unset flags are false, the id is
/// zero, the opcode is a standard query, the response code is NoError, and
/// there are no questions or answers.
#[derive(Debug)]
pub struct ResponseBuilder {
    response: Response,
}

impl View for ResponseBuilder {
    type V = ResponseView;

    closed spec fn view(&self) -> ResponseView {
        self.response@
    }
}

impl Default for ResponseBuilder {
    fn default() -> (r: ResponseBuilder)
        ensures
            r@ == ResponseBuilder::spec_default(),
    {
        let r = ResponseBuilder {
            response: Response {
                id: 0,
                opcode: OpCode::Query,
                truncation: false,
                authoritative_answer: false,
                recursion_desired: false,
                recursion_available: false,
                response_code: ResponseCode::NoError,
                questions: Vec::new(),
                answers: Vec::new(),
            },
        };
        proof {
            assert(r@.questions =~= Seq::<QuestionView>::empty());
            assert(r@.answers =~= Seq::<AnswerView>::empty());
        }
        r
    }
}

impl ResponseBuilder {
    /// What a new builder holds.
    pub open spec fn spec_default() -> ResponseView {
        ResponseView {
            id: 0,
            opcode: OpCode::Query,
            truncation: false,
            authoritative_answer: false,
            recursion_desired: false,
            recursion_available: false,
            response_code: ResponseCode::NoError,
            questions: seq![],
            answers: seq![],
        }
    }

    pub fn build(self) -> (r: Response)
        ensures
            r@ == self@,
    {
        self.response
    }

    pub fn id(self, id: u16) -> (r: Self)
        ensures
            r@ == (ResponseView { id, ..self@ }),
    {
        let mut b = self;
        b.response.id = id;
        b
    }

    pub fn opcode(self, opcode: OpCode) -> (r: Self)
        ensures
            r@ == (ResponseView { opcode, ..self@ }),
    {
        let mut b = self;
        b.response.opcode = opcode;
        b
    }

    pub fn recursion_desired(self, recursion_desired: bool) -> (r: Self)
        ensures
            r@ == (ResponseView { recursion_desired, ..self@ }),
    {
        let mut b = self;
        b.response.recursion_desired = recursion_desired;
        b
    }

    pub fn set_truncation(self) -> (r: Self)
        ensures
            r@ == (ResponseView { truncation: true, ..self@ }),
    {
        let mut b = self;
        b.response.truncation = true;
        b
    }

    pub fn set_recursion_available(self) -> (r: Self)
        ensures
            r@ == (ResponseView { recursion_available: true, ..self@ }),
    {
        let mut b = self;
        b.response.recursion_available = true;
        b
    }

    pub fn set_authoritative_answer(self) -> (r: Self)
        ensures
            r@ == (ResponseView { authoritative_answer: true, ..self@ }),
    {
        let mut b = self;
        b.response.authoritative_answer = true;
        b
    }

    pub fn response_code(self, response_code: ResponseCode) -> (r: Self)
        ensures
            r@ == (ResponseView { response_code, ..self@ }),
    {
        let mut b = self;
        b.response.response_code = response_code;
        b
    }

    pub fn questions(self, questions: Vec<Question>) -> (r: Self)
        ensures
            r@ == (ResponseView { questions: questions_view(questions@), ..self@ }),
    {
        let mut b = self;
        b.response.questions = questions;
        b
    }

    pub fn answers(self, answers: Vec<Answer>) -> (r: Self)
        ensures
            r@ == (ResponseView { answers: answers_view(answers@), ..self@ }),
    {
        let mut b = self;
        b.response.answers = answers;
        b
    }
}

} // verus!
