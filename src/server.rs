use vstd::prelude::*;
use vstd::string::StringExecFns;

use crate::error::DnsError;
use crate::message::{
    answers_view, decode_query, encode_response, names_expanded, questions_view, Answer,
    AnswerView, Query, QueryView, QuestionView, Response, ResponseView,
};
use crate::record::Record;

verus! {

/// The address a server binds to by default.
pub const DEFAULT_ADDRESS: &'static str = "127.0.0.1";

/// The UDP port a server binds to by default.
pub const DEFAULT_PORT: u16 = 2053;

/// Where a server is to bind: an address and a port.
#[derive(Debug)]
pub struct ServerBuilder {
    address: String,
    port: u16,
}

impl View for ServerBuilder {
    type V = (Seq<char>, u16);

    closed spec fn view(&self) -> (Seq<char>, u16) {
        (self.address@, self.port)
    }
}

impl Default for ServerBuilder {
    fn default() -> (r: ServerBuilder)
        ensures
            r@ == (DEFAULT_ADDRESS@, DEFAULT_PORT),
    {
        ServerBuilder { address: String::from_str(DEFAULT_ADDRESS), port: DEFAULT_PORT }
    }
}

impl ServerBuilder {
    pub fn address(self, addr: &str) -> (r: Self)
        ensures
            r@ == (addr@, self@.1),
    {
        ServerBuilder { address: String::from_str(addr), port: self.port }
    }

    pub fn port(self, port: u16) -> (r: Self)
        ensures
            r@ == (self@.0, port),
    {
        ServerBuilder { address: self.address, port }
    }

    /// The address to bind to.
    pub fn bind_address(&self) -> (r: &str)
        ensures
            r@ == self@.0,
    {
        self.address.as_str()
    }

    /// The port to bind to.
    pub fn bind_port(&self) -> (r: u16)
        ensures
            r == self@.1,
    {
        self.port
    }
}

/// One answer per question: the question's name, `record`, and `ttl`.
pub open spec fn answers_for(qs: Seq<QuestionView>, record: crate::record::RecordView, ttl: u32) -> Seq<
    AnswerView,
> {
    qs.map_values(|q: QuestionView| AnswerView { name: q.name, record, ttl })
}

/// The response to a query: its id, opcode, recursion-desired flag, questions
/// and response code are echoed, and every question is answered with
/// `record` for `ttl` seconds.
pub open spec fn response_to(q: QueryView, record: crate::record::RecordView, ttl: u32) -> ResponseView {
    ResponseView {
        id: q.id,
        opcode: q.opcode,
        truncation: false,
        authoritative_answer: false,
        recursion_desired: q.recursion_desired,
        recursion_available: false,
        response_code: q.response_code,
        questions: q.questions,
        answers: answers_for(q.questions, record, ttl),
    }
}

/// Builds the response to a query (see [`response_to`]).
pub fn process_query(query: &Query, record: &Record, ttl: u32) -> (r: Response)
    ensures
        r@ == response_to(query@, record@, ttl),
{
    let questions = query.questions();
    let mut answers: Vec<Answer> = Vec::new();
    let mut i: usize = 0;
    while i < questions.len()
        invariant
            0 <= i <= questions@.len(),
            questions_view(questions@) == query@.questions,
            answers_view(answers@) == answers_for(
                query@.questions.take(i as int),
                record@,
                ttl,
            ),
        decreases questions@.len() - i,
    {
        let ghost before = answers@;
        answers.push(Answer::new(questions[i].name(), record, ttl));
        proof {
            assert(questions@[i as int]@ == query@.questions[i as int]);
            assert(query@.questions.take(i + 1) =~= query@.questions.take(i as int).push(
                query@.questions[i as int],
            ));
            assert(answers_view(answers@) =~= answers_view(before).push(
                AnswerView { name: query@.questions[i as int].name, record: record@, ttl },
            ));
            assert(answers_view(answers@) =~= answers_for(
                query@.questions.take(i + 1),
                record@,
                ttl,
            ));
        }
        i += 1;
    }
    proof {
        assert(query@.questions.take(questions@.len() as int) =~= query@.questions);
    }
    Response::builder().id(query.id()).opcode(query.opcode()).recursion_desired(
        query.recursion_desired(),
    ).questions(questions).answers(answers).response_code(query.response_code()).build()
}


/// The reply to a received datagram: the query it holds, answered with
/// `record` for `ttl` seconds, encoded. A datagram without an id, or with the
/// response bit set, has no reply.
pub fn handle_datagram(datagram: &[u8], record: &Record, ttl: u32) -> (r: Result<Vec<u8>, DnsError>)
    ensures
        match decode_query(datagram@) {
            Ok(q) => r matches Ok(bytes) && bytes@ == encode_response(response_to(q, record@, ttl)),
            Err(e) => r == Err::<Vec<u8>, DnsError>(e),
        },
{
    let query = match Query::try_from(datagram) {
        Ok(q) => q,
        Err(e) => {
            return Err(e);
        },
    };
    let response = process_query(&query, record, ttl);
    proof {
        let rv = response_to(query@, record@, ttl);
        assert forall|i: int| 0 <= i < rv.answers.len() implies (
        #[trigger] rv.answers[i]).name.pointer is None by {
            assert(rv.answers[i].name == query@.questions[i].name);
        }
        assert(names_expanded(rv));
    }
    Ok(response.to_bytes())
}

} // verus!
