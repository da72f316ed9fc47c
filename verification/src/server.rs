//! The service: what is answered to each command, and what a connection does
//! with each byte it receives.

use crate::framer::{completes_line, LineFramer};
use crate::model::{QueueView, UpdateError};
use crate::protocol::{parse, wire, Command, CommandView, Response, ResponseView, INVALID_VALUE};
use crate::shared::PQueue;
use crate::stats::VERSION;
use vstd::prelude::*;
use vstd::string::StringExecFns;

verus! {

/// The text that `String::from_utf8_lossy` makes of `bytes`.
pub uninterp spec fn utf8_lossy(bytes: Seq<u8>) -> Seq<char>;

/// The text of `bytes`, by `String::from_utf8_lossy`: the bytes decoded as
/// UTF-8, with U+FFFD in place of what is not valid UTF-8. The result depends
/// on the bytes alone; no more is claimed of it.
#[verifier::external_body]
fn decode(bytes: &[u8]) -> (text: String)
    ensures
        text@ == utf8_lossy(bytes@),
{
    String::from_utf8_lossy(bytes).into_owned()
}

/// The answer to an update: done, or an error for an update that was turned
/// down.
pub open spec fn update_reply(outcome: Result<(Option<i64>, i64), UpdateError>) -> ResponseView {
    match outcome {
        Ok(_) => ResponseView::Done,
        Err(_) => ResponseView::Error(INVALID_VALUE@),
    }
}

/// The answer that shows an item: the item, or `-1` where there is none.
pub open spec fn item_reply(item: Option<Seq<char>>) -> ResponseView {
    match item {
        Some(id) => ResponseView::Item(id),
        None => ResponseView::Item("-1"@),
    }
}

/// The answer that shows a score: the score, or -1 where there is none.
pub open spec fn score_reply(score: Option<i64>) -> ResponseView {
    match score {
        Some(score) => ResponseView::Score(score),
        None => ResponseView::Score(-1i64),
    }
}

/// Whether `response` is the answer to `command` on the queue `q`.
pub open spec fn answers(q: QueueView, command: CommandView, response: ResponseView) -> bool {
    match command {
        CommandView::Update { item_id, value } => response == update_reply(
            q.update_outcome(item_id, value),
        ),
        CommandView::Next => response == item_reply(q.peek()),
        CommandView::Peek => response == item_reply(q.peek()),
        CommandView::Score { item_id } => response == score_reply(q.score(item_id)),
        CommandView::Info => response matches ResponseView::Stats(stats) && stats.version
            == VERSION@ && stats.updates == q.updates && stats.items == q.items() && stats.pools
            == q.pool_count(),
        CommandView::Error { msg } => response == ResponseView::Error(msg),
        CommandView::Help => response == ResponseView::Help,
    }
}

/// The answer to an update with the outcome `outcome`.
pub fn answer_update(outcome: Result<(Option<i64>, i64), UpdateError>) -> (response: Response)
    ensures
        response@ == update_reply(outcome),
{
    match outcome {
        Ok(_) => Response::Done,
        Err(_) => Response::Error(String::from_str(INVALID_VALUE)),
    }
}

/// The answer that shows `item`.
pub fn answer_item(item: Option<String>) -> (response: Response)
    ensures
        response@ == item_reply(crate::model::named(item)),
{
    match item {
        Some(id) => Response::Item(id),
        None => Response::Item(String::from_str("-1")),
    }
}

/// The answer that shows `score`.
pub fn answer_score(score: Option<i64>) -> (response: Response)
    ensures
        response@ == score_reply(score),
{
    match score {
        Some(score) => Response::Score(score),
        None => Response::Score(-1),
    }
}

/// Carries `command` out on the shared queue and returns the answer.
///
/// Other holders may change the queue at any time: the answer is the answer
/// on some queue in step.
pub fn process_command(command: Command, pqueue: &PQueue) -> (response: Response)
    ensures
        exists|q: QueueView| q.wf() && #[trigger] answers(q, command@, response@),
{
    match command {
        Command::Update { item_id, value } => {
            let ghost id = item_id@;
            let outcome = pqueue.update(item_id, value);
            let response = answer_update(outcome);
            proof {
                let q = choose|q: QueueView| q.wf() && outcome == #[trigger] q.update_outcome(id, value);
                assert(answers(q, command@, response@));
            }
            response
        },
        Command::Next => {
            let item = pqueue.next();
            let response = answer_item(item);
            proof {
                let q = choose|q: QueueView| q.wf() && crate::model::named(item) == #[trigger] q.peek();
                assert(answers(q, command@, response@));
            }
            response
        },
        Command::Peek => {
            let item = pqueue.peek();
            let response = answer_item(item);
            proof {
                let q = choose|q: QueueView| q.wf() && crate::model::named(item) == #[trigger] q.peek();
                assert(answers(q, command@, response@));
            }
            response
        },
        Command::Score { item_id } => {
            let score = pqueue.score(&item_id);
            let response = answer_score(score);
            proof {
                let q = choose|q: QueueView| q.wf() && score == #[trigger] q.score(item_id@);
                assert(answers(q, command@, response@));
            }
            response
        },
        Command::Info => {
            let stats = pqueue.stats();
            let response = Response::Stats(stats);
            proof {
                let q = choose|q: QueueView|
                    q.wf() && stats.updates == q.updates && stats.items == #[trigger] q.items()
                        && stats.pools == q.pool_count();
                assert(answers(q, command@, response@));
            }
            response
        },
        Command::Error { msg } => {
            let response = Response::Error(msg);
            proof {
                crate::laws::law_empty_wf();
                assert(answers(QueueView::empty(), command@, response@));
            }
            response
        },
        Command::Help => {
            let response = Response::Help;
            proof {
                crate::laws::law_empty_wf();
                assert(answers(QueueView::empty(), command@, response@));
            }
            response
        },
    }
}

/// Answers one request line: the line is read as a command and the command
/// is carried out on the shared queue.
pub fn answer_request(request: &str, pqueue: &PQueue) -> (answer: String)
    ensures
        exists|q: QueueView, response: ResponseView|
            q.wf() && #[trigger] answers(q, parse(request@), response) && answer@ == wire(response),
{
    let command = Command::from(request);
    let ghost asked = command@;
    let response = process_command(command, pqueue);
    proof {
        let q = choose|q: QueueView| q.wf() && #[trigger] answers(q, asked, response@);
        assert(answers(q, parse(request@), response@));
    }
    response.to_string()
}

/// A request and the answer to it.
pub struct Exchange {
    /// The request line as text, without its line end.
    pub request: String,
    /// The answer, as it goes to the client.
    pub answer: String,
}

/// One client's connection to the shared queue.
pub struct Connection {
    framer: LineFramer,
    queue: PQueue,
}

impl Connection {
    /// The bytes received since the last complete line.
    pub closed spec fn pending(&self) -> Seq<u8> {
        self.framer@
    }

    /// The handle to the queue on which the requests of this connection are
    /// carried out.
    pub closed spec fn served(&self) -> PQueue {
        self.queue
    }

    /// A connection on which nothing has been received, for a client of
    /// `queue`: it keeps the handle and carries every request out through it.
    pub fn new(queue: PQueue) -> (connection: Self)
        ensures
            connection.pending() == Seq::<u8>::empty(),
            connection.served() == queue,
    {
        Connection { framer: LineFramer::new(), queue }
    }

    /// Takes one byte from the client. Where the byte completes a request
    /// line, the request is carried out, and the request is returned with the
    /// answer to send.
    ///
    /// The bytes of the line are read as UTF-8, what is not valid being
    /// replaced.
    pub fn receive(&mut self, byte: u8) -> (exchange: Option<Exchange>)
        ensures
            final(self).served() == old(self).served(),
            match exchange {
                Some(done) => {
                    &&& completes_line(old(self).pending(), byte)
                    &&& final(self).pending() == Seq::<u8>::empty()
                    &&& done.request@ == utf8_lossy(old(self).pending().drop_last())
                    &&& exists|q: QueueView, response: ResponseView|
                        q.wf() && #[trigger] answers(q, parse(done.request@), response)
                            && done.answer@ == wire(response)
                },
                None => {
                    &&& !completes_line(old(self).pending(), byte)
                    &&& final(self).pending() == old(self).pending().push(byte)
                },
            },
    {
        match self.framer.push(byte) {
            Some(line) => {
                let request = decode(line.as_slice());
                let answer = answer_request(request.as_str(), &self.queue);
                Some(Exchange { request, answer })
            },
            None => None,
        }
    }
}

} // verus!
