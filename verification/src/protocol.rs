//! The line protocol: what a request line asks for and how an answer is
//! written.

use crate::stats::{PQueueStats, StatsView};
use crate::text::{
    chars_of, decimal, integer, is_word, lemma_words_are_words, parse_integer, same_word, spells,
    split, words, write_decimal,
};
use vstd::prelude::*;
use vstd::string::StringExecFns;

verus! {

/// The error message for a line that is no command.
pub const INVALID_COMMAND: &'static str = "Invalid command or arguments";

/// The error message for an update whose value is no 64-bit integer, or would
/// take a score out of the 64-bit range.
pub const INVALID_VALUE: &'static str = "Invalid value for UPDATE";

/// The usage block that answers `HELP`.
pub const HELP: &'static str =
    "USAGE (note: commands are case insensitive, identifiers are case sensitive): \r\n+UPDATE <identifier> <score> [Updates the priority of <identifier> by adding <score> to its priority or inserts it with priority of <score>]\r\n +NEXT                        [Pops the highest priority item (item that has had that priority the longest if multiple) off the queue]\r\n +SCORE <identifier>          [Fetch the current priority score for <identifier>]\r\n +INFO                        [Fetch statistics about the server]\r\n +HELP                        [Get this help]\r\n";

/// What a client asks for.
#[derive(Clone, Debug)]
pub enum Command {
    /// Add `value` to the score of `item_id`, or insert it with that score.
    Update { item_id: String, value: i64 },
    /// Take the item with the highest score out and return it.
    Next,
    /// Return the item with the highest score and leave it in.
    Peek,
    /// Return the score of `item_id`.
    Score { item_id: String },
    /// Return the statistics of the server.
    Info,
    /// A line that is no command, with what to tell the client.
    Error { msg: String },
    /// Return the usage block.
    Help,
}

/// A command, as mathematics.
pub enum CommandView {
    Update { item_id: Seq<char>, value: i64 },
    Next,
    Peek,
    Score { item_id: Seq<char> },
    Info,
    Error { msg: Seq<char> },
    Help,
}

impl View for Command {
    type V = CommandView;

    open spec fn view(&self) -> CommandView {
        match self {
            Command::Update { item_id, value } => CommandView::Update {
                item_id: item_id@,
                value: *value,
            },
            Command::Next => CommandView::Next,
            Command::Peek => CommandView::Peek,
            Command::Score { item_id } => CommandView::Score { item_id: item_id@ },
            Command::Info => CommandView::Info,
            Command::Error { msg } => CommandView::Error { msg: msg@ },
            Command::Help => CommandView::Help,
        }
    }
}

/// What the request line `line` asks for.
///
/// The line is cut into words at runs of separators. The first word is the
/// verb, whatever the case of its letters; the other words are taken as they
/// stand. A line of another form is an error.
pub open spec fn parse(line: Seq<char>) -> CommandView {
    let w = words(line);
    if w.len() == 3 && same_word(w[0], "UPDATE"@) {
        match integer(w[2]) {
            Some(value) => CommandView::Update { item_id: w[1], value },
            None => CommandView::Error { msg: INVALID_VALUE@ },
        }
    } else if w.len() == 1 && same_word(w[0], "NEXT"@) {
        CommandView::Next
    } else if w.len() == 1 && same_word(w[0], "PEEK"@) {
        CommandView::Peek
    } else if w.len() == 2 && same_word(w[0], "SCORE"@) {
        CommandView::Score { item_id: w[1] }
    } else if w.len() == 1 && same_word(w[0], "INFO"@) {
        CommandView::Info
    } else if w.len() == 1 && same_word(w[0], "HELP"@) {
        CommandView::Help
    } else {
        CommandView::Error { msg: INVALID_COMMAND@ }
    }
}

/// The identifier in a command that was read from a line is not empty and
/// holds no separator.
pub proof fn law_identifiers_are_words(line: Seq<char>)
    ensures
        match parse(line) {
            CommandView::Update { item_id, .. } => is_word(item_id),
            CommandView::Score { item_id } => is_word(item_id),
            _ => true,
        },
{
    lemma_words_are_words(line);
    let w = words(line);
    if w.len() >= 2 {
        assert(is_word(w[1]));
    }
}

impl Command {
    /// Reads a request line.
    pub fn parse(line: &str) -> (command: Command)
        ensures
            command@ == parse(line@),
    {
        let chars = chars_of(line);
        let spans = split(&chars);
        let ghost w = words(line@);
        let n: usize = spans.len();
        assert(w.len() == n);
        if n == 0 || n > 3 {
            return Command::Error { msg: String::from_str(INVALID_COMMAND) };
        }
        let verb = spans[0];
        assert(w[0] == chars@.subrange(verb.0 as int, verb.1 as int));
        if n == 3 && spells(&chars, verb.0, verb.1, "UPDATE") {
            let id = spans[1];
            let number = spans[2];
            assert(w[1] == chars@.subrange(id.0 as int, id.1 as int));
            assert(w[2] == chars@.subrange(number.0 as int, number.1 as int));
            match parse_integer(&chars, number.0, number.1) {
                Some(value) => Command::Update {
                    item_id: String::from_str(line.substring_char(id.0, id.1)),
                    value,
                },
                None => Command::Error { msg: String::from_str(INVALID_VALUE) },
            }
        } else if n == 1 && spells(&chars, verb.0, verb.1, "NEXT") {
            Command::Next
        } else if n == 1 && spells(&chars, verb.0, verb.1, "PEEK") {
            Command::Peek
        } else if n == 2 && spells(&chars, verb.0, verb.1, "SCORE") {
            let id = spans[1];
            assert(w[1] == chars@.subrange(id.0 as int, id.1 as int));
            Command::Score { item_id: String::from_str(line.substring_char(id.0, id.1)) }
        } else if n == 1 && spells(&chars, verb.0, verb.1, "INFO") {
            Command::Info
        } else if n == 1 && spells(&chars, verb.0, verb.1, "HELP") {
            Command::Help
        } else {
            Command::Error { msg: String::from_str(INVALID_COMMAND) }
        }
    }
}

impl From<&str> for Command {
    /// Reads a request line.
    fn from(line: &str) -> (command: Command)
        ensures
            command@ == parse(line@),
    {
        Command::parse(line)
    }
}

impl vstd::std_specs::convert::FromSpecImpl<&str> for Command {
    /// A command holds strings, and no value of the model stands for a string:
    /// what `from` returns is stated at `from` itself, over the view.
    open spec fn obeys_from_spec() -> bool {
        false
    }

    open spec fn from_spec(line: &str) -> Command {
        vstd::pervasive::arbitrary()
    }
}

/// What the server answers.
#[derive(Clone, Debug)]
pub enum Response {
    /// The command was carried out.
    Done,
    /// A score.
    Score(i64),
    /// An item.
    Item(String),
    /// What went wrong.
    Error(String),
    /// The statistics of the server.
    Stats(PQueueStats),
    /// The usage block.
    Help,
}

/// An answer, as mathematics.
pub enum ResponseView {
    Done,
    Score(i64),
    Item(Seq<char>),
    Error(Seq<char>),
    Stats(StatsView),
    Help,
}

impl View for Response {
    type V = ResponseView;

    open spec fn view(&self) -> ResponseView {
        match self {
            Response::Done => ResponseView::Done,
            Response::Score(score) => ResponseView::Score(*score),
            Response::Item(item) => ResponseView::Item(item@),
            Response::Error(msg) => ResponseView::Error(msg@),
            Response::Stats(stats) => ResponseView::Stats(stats@),
            Response::Help => ResponseView::Help,
        }
    }
}

/// The carriage return and line feed that end every line of an answer.
pub open spec fn crlf() -> Seq<char> {
    seq!['\r', '\n']
}

/// How the statistics are written: a heading, then one line for each of
/// uptime, version, updates, items and pools.
pub open spec fn stats_wire(stats: StatsView) -> Seq<char> {
    "+INFO"@ + crlf() + "+uptime:"@ + decimal(stats.uptime as int) + crlf() + "+version:"@
        + stats.version + crlf() + "+updates:"@ + decimal(stats.updates as int) + crlf()
        + "+items:"@ + decimal(stats.items as int) + crlf() + "+pools:"@ + decimal(
        stats.pools as int,
    ) + crlf()
}

/// The characters that go to the client for `response`. Every line ends with
/// CR LF; a line that begins with `+` brings data, one that begins with `-` an
/// error.
pub open spec fn wire(response: ResponseView) -> Seq<char> {
    match response {
        ResponseView::Done => "+OK"@ + crlf(),
        ResponseView::Score(score) => "+"@ + decimal(score as int) + crlf(),
        ResponseView::Item(item) => "+"@ + item + crlf(),
        ResponseView::Error(msg) => "-"@ + msg + crlf(),
        ResponseView::Stats(stats) => stats_wire(stats),
        ResponseView::Help => HELP@,
    }
}

impl Response {
    /// Writes this answer as it goes to the client.
    pub fn to_string(&self) -> (text: String)
        ensures
            text@ == wire(self@),
    {
        proof {
            reveal_strlit("\r\n");
        }
        assert("\r\n"@ =~= crlf());
        match self {
            Response::Done => {
                let mut text = String::from_str("+OK");
                text.append("\r\n");
                text
            },
            Response::Score(score) => {
                let mut text = String::from_str("+");
                write_decimal(&mut text, *score);
                text.append("\r\n");
                text
            },
            Response::Item(item) => {
                let mut text = String::from_str("+");
                text.append(item.as_str());
                text.append("\r\n");
                text
            },
            Response::Error(msg) => {
                let mut text = String::from_str("-");
                text.append(msg.as_str());
                text.append("\r\n");
                text
            },
            Response::Stats(stats) => {
                let mut text = String::from_str("+INFO");
                text.append("\r\n");
                text.append("+uptime:");
                write_decimal(&mut text, stats.uptime);
                text.append("\r\n");
                text.append("+version:");
                text.append(stats.version.as_str());
                text.append("\r\n");
                text.append("+updates:");
                write_decimal(&mut text, stats.updates);
                text.append("\r\n");
                text.append("+items:");
                write_decimal(&mut text, stats.items);
                text.append("\r\n");
                text.append("+pools:");
                write_decimal(&mut text, stats.pools);
                text.append("\r\n");
                text
            },
            Response::Help => String::from_str(HELP),
        }
    }
}

} // verus!
