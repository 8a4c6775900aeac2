//! Commands: how a request becomes one, and what carrying it out does to the store.
use std::sync::Arc;
use tokio::sync::Notify;
use vstd::prelude::*;
use vstd::utf8::encode_utf8;

use crate::decimal::{parse_i64, parse_u64, read_i64, read_u64};
use crate::resp::{lemma_values_of, values_of, RespData, Value};
use crate::state::{
    get_reply, holds_other, len_spec, list_at, pop_spec, push_spec, range_of, registered,
    AppState, ExecError, Model,
};
use crate::text::{lossy_text, lossy_to_string, text_is, upper_text, uppercase};

verus! {

broadcast use vstd::std_specs::vec::group_vec_axioms;

/// The end of a list that a push or a pop works at.
#[derive(Debug, Clone, Copy, PartialEq, Eq, Structural)]
pub enum PushPopDirection {
    Left,
    Right,
}

/// A request, checked and typed.
#[derive(Debug)]
pub enum Command {
    Ping,
    Echo(String),
    SetKey {
        key: String,
        value: RespData,
        /// Milliseconds after which the key is removed; none keeps it.
        expires: Option<u64>,
        /// The text arguments after the value.
        args: Vec<String>,
    },
    Get(String),
    ListPush { key: String, values: Vec<RespData>, direction: PushPopDirection },
    ListRange { key: String, start: i64, end: i64 },
    ListLen(String),
    ListPop {
        key: String,
        count: u32,
        direction: PushPopDirection,
        /// `None` when the pop does not wait; `Some(n)` waits up to `n` seconds,
        /// and `Some(0)` waits with no limit.
        blocking: Option<u32>,
    },
}

/// A command as the contracts see it.
pub enum CommandView {
    Ping,
    Echo(Seq<char>),
    SetKey { key: Seq<char>, value: Value, expires: Option<nat>, args: Seq<Seq<char>> },
    Get(Seq<char>),
    ListPush { key: Seq<char>, values: Seq<Value>, direction: PushPopDirection },
    ListRange { key: Seq<char>, start: int, end: int },
    ListLen(Seq<char>),
    ListPop { key: Seq<char>, count: nat, direction: PushPopDirection, blocking: Option<nat> },
}

pub open spec fn texts_of(s: Seq<String>) -> Seq<Seq<char>> {
    s.map_values(|t: String| t@)
}

impl View for Command {
    type V = CommandView;

    open spec fn view(&self) -> CommandView {
        match *self {
            Command::Ping => CommandView::Ping,
            Command::Echo(t) => CommandView::Echo(t@),
            Command::SetKey { key, value, expires, args } => CommandView::SetKey {
                key: key@,
                value: value@,
                expires: match expires {
                    Some(ms) => Some(ms as nat),
                    None => None,
                },
                args: texts_of(args@),
            },
            Command::Get(k) => CommandView::Get(k@),
            Command::ListPush { key, values, direction } => CommandView::ListPush {
                key: key@,
                values: values_of(values@),
                direction,
            },
            Command::ListRange { key, start, end } => CommandView::ListRange {
                key: key@,
                start: start as int,
                end: end as int,
            },
            Command::ListLen(k) => CommandView::ListLen(k@),
            Command::ListPop { key, count, direction, blocking } => CommandView::ListPop {
                key: key@,
                count: count as nat,
                direction,
                blocking: match blocking {
                    Some(t) => Some(t as nat),
                    None => None,
                },
            },
        }
    }
}

/// Why a request is not a command.
#[derive(Debug, Clone, Copy, PartialEq, Eq, Structural)]
pub enum ParseError {
    /// The request is not an array with at least one element.
    NotACommand,
    /// The command name is not a bulk string.
    BadName,
    /// The command name is none of those handled here.
    UnknownCommand,
    /// A required argument is missing or of the wrong kind.
    BadArgument,
    /// The `PX` option is followed by something that is not a number of milliseconds.
    BadExpiry,
}

/// The text of the bulk string at position `i`.
pub open spec fn text_arg(e: Seq<Value>, i: int) -> Option<Seq<char>> {
    if 0 <= i < e.len() {
        match e[i] {
            Value::BulkString(Some(b)) => Some(lossy_text(b)),
            _ => None,
        }
    } else {
        None
    }
}

/// The number a value stands for: an integer, or the decimal text of a bulk or simple string.
pub open spec fn number_of(v: Value) -> Option<int> {
    match v {
        Value::Integer(n) => Some(n),
        Value::BulkString(Some(b)) => parse_i64(b),
        Value::SimpleString(t) => parse_i64(encode_utf8(t)),
        _ => None,
    }
}

/// The number at position `i`, when it fits a `u32`.
pub open spec fn small_number_at(e: Seq<Value>, i: int) -> Option<nat> {
    if 0 <= i < e.len() {
        match number_of(e[i]) {
            Some(n) => if 0 <= n <= u32::MAX {
                Some(n as nat)
            } else {
                None
            },
            None => None,
        }
    } else {
        None
    }
}

/// The texts of the bulk strings among `s`, in order; other values are skipped.
pub open spec fn bulk_texts(s: Seq<Value>) -> Seq<Seq<char>>
    decreases s.len(),
{
    if s.len() == 0 {
        Seq::empty()
    } else {
        bulk_texts(s.drop_last()) + match s.last() {
            Value::BulkString(Some(b)) => seq![lossy_text(b)],
            _ => Seq::empty(),
        }
    }
}

pub open spec fn is_first_px(args: Seq<Seq<char>>, i: int) -> bool {
    &&& 0 <= i < args.len()
    &&& upper_text(args[i]) == "PX"@
    &&& forall|j: int| 0 <= j < i ==> upper_text(#[trigger] args[j]) != "PX"@
}

/// The expiry that the trailing arguments of `SET` ask for: the number after the
/// first `PX` (in any case); none without a `PX` or with nothing after it.
pub open spec fn expiry_of(args: Seq<Seq<char>>) -> Result<Option<nat>, ParseError> {
    if exists|i: int| is_first_px(args, i) {
        let i = choose|i: int| is_first_px(args, i);
        if i + 1 < args.len() {
            match parse_u64(encode_utf8(args[i + 1])) {
                Some(ms) => Ok(Some(ms)),
                None => Err(ParseError::BadExpiry),
            }
        } else {
            Ok(None)
        }
    } else {
        Ok(None)
    }
}

/// The command that a request names, given its upper-cased name and all its elements.
pub open spec fn parse_spec(name: Seq<char>, e: Seq<Value>) -> Result<CommandView, ParseError> {
    if name == "PING"@ {
        Ok(CommandView::Ping)
    } else if name == "ECHO"@ {
        match text_arg(e, 1) {
            Some(t) => Ok(CommandView::Echo(t)),
            None => Err(ParseError::BadArgument),
        }
    } else if name == "SET"@ {
        match text_arg(e, 1) {
            Some(key) => if e.len() > 2 {
                let args = bulk_texts(e.subrange(3, e.len() as int));
                match expiry_of(args) {
                    Ok(expires) => Ok(CommandView::SetKey { key, value: e[2], expires, args }),
                    Err(err) => Err(err),
                }
            } else {
                Err(ParseError::BadArgument)
            },
            None => Err(ParseError::BadArgument),
        }
    } else if name == "GET"@ {
        match text_arg(e, 1) {
            Some(key) => Ok(CommandView::Get(key)),
            None => Err(ParseError::BadArgument),
        }
    } else if name == "LPUSH"@ || name == "RPUSH"@ {
        match text_arg(e, 1) {
            Some(key) => if e.len() > 2 {
                Ok(
                    CommandView::ListPush {
                        key,
                        values: e.subrange(2, e.len() as int),
                        direction: if name == "LPUSH"@ {
                            PushPopDirection::Left
                        } else {
                            PushPopDirection::Right
                        },
                    },
                )
            } else {
                Err(ParseError::BadArgument)
            },
            None => Err(ParseError::BadArgument),
        }
    } else if name == "LRANGE"@ {
        match (text_arg(e, 1), if e.len() > 3 {
            (number_of(e[2]), number_of(e[3]))
        } else {
            (None, None)
        }) {
            (Some(key), (Some(start), Some(end))) => Ok(CommandView::ListRange { key, start, end }),
            _ => Err(ParseError::BadArgument),
        }
    } else if name == "LLEN"@ {
        match text_arg(e, 1) {
            Some(key) => Ok(CommandView::ListLen(key)),
            None => Err(ParseError::BadArgument),
        }
    } else if name == "LPOP"@ || name == "RPOP"@ || name == "BLPOP"@ || name == "BRPOP"@ {
        let direction = if name == "RPOP"@ || name == "BRPOP"@ {
            PushPopDirection::Right
        } else {
            PushPopDirection::Left
        };
        let blocks = name == "BLPOP"@ || name == "BRPOP"@;
        match text_arg(e, 1) {
            Some(key) => if blocks {
                Ok(
                    CommandView::ListPop {
                        key,
                        count: 1,
                        direction,
                        blocking: small_number_at(e, 2),
                    },
                )
            } else {
                Ok(
                    CommandView::ListPop {
                        key,
                        count: match small_number_at(e, 2) {
                            Some(n) => n,
                            None => 1,
                        },
                        direction,
                        blocking: None,
                    },
                )
            },
            None => Err(ParseError::BadArgument),
        }
    } else {
        Err(ParseError::UnknownCommand)
    }
}

/// The command that a request value names.
pub open spec fn request_spec(v: Value) -> Result<CommandView, ParseError> {
    match v {
        Value::Array(Some(e)) => if e.len() > 0 {
            match e[0] {
                Value::BulkString(Some(b)) => parse_spec(upper_text(lossy_text(b)), e),
                _ => Err(ParseError::BadName),
            }
        } else {
            Err(ParseError::NotACommand)
        },
        _ => Err(ParseError::NotACommand),
    }
}

/// `r` is `expected`, seen through the views.
pub open spec fn parsed(r: Result<Command, ParseError>, expected: Result<CommandView, ParseError>) -> bool {
    match expected {
        Ok(c) => r matches Ok(d) && d@ == c,
        Err(e) => r == Err::<Command, ParseError>(e),
    }
}

fn text_at(e: &Vec<RespData>, i: usize) -> (r: Option<String>)
    ensures
        ({
            let s: Option<Seq<char>> = match r {
                Some(t) => Some(t@),
                None => None,
            };
            s == text_arg(values_of(e@), i as int)
        }),
{
    proof {
        lemma_values_of(e@);
    }
    if i < e.len() {
        match &e[i] {
            RespData::BulkString(Some(b)) => Some(lossy_to_string(b.as_slice())),
            _ => None,
        }
    } else {
        None
    }
}

impl RespData {
    /// The number this value stands for: an integer, or the decimal text of a
    /// bulk or simple string.
    pub fn as_number(&self) -> (r: Option<i64>)
        ensures
            r matches Some(n) ==> number_of(self@) == Some(n as int),
            r is None ==> number_of(self@) is None,
    {
        match self {
            RespData::Integer(n) => Some(*n),
            RespData::BulkString(Some(b)) => read_i64(b.as_slice()),
            RespData::SimpleString(s) => read_i64(s.as_str().as_bytes()),
            _ => None,
        }
    }
}

fn small_number(e: &Vec<RespData>, i: usize) -> (r: Option<u32>)
    ensures
        ({
            let s: Option<nat> = match r {
                Some(n) => Some(n as nat),
                None => None,
            };
            s == small_number_at(values_of(e@), i as int)
        }),
{
    proof {
        lemma_values_of(e@);
    }
    if i < e.len() {
        match e[i].as_number() {
            Some(n) => if 0 <= n && n <= 4294967295 {
                Some(n as u32)
            } else {
                None
            },
            None => None,
        }
    } else {
        None
    }
}

proof fn lemma_texts_push(s: Seq<String>, t: String)
    ensures
        texts_of(s.push(t)) == texts_of(s).push(t@),
{
    assert(texts_of(s.push(t)) =~= texts_of(s).push(t@));
}

/// The texts of the bulk strings among `e[from..]`.
fn bulk_texts_from(e: &Vec<RespData>, from: usize) -> (r: Vec<String>)
    requires
        from <= e@.len(),
    ensures
        texts_of(r@) == bulk_texts(values_of(e@).subrange(from as int, e@.len() as int)),
{
    proof {
        lemma_values_of(e@);
    }
    let ghost vals = values_of(e@);
    let mut out: Vec<String> = Vec::new();
    let mut i: usize = from;
    assert(texts_of(out@) =~= bulk_texts(vals.subrange(from as int, from as int)));
    while i < e.len()
        invariant
            from <= i <= e@.len(),
            vals == values_of(e@),
            vals.len() == e@.len(),
            forall|j: int| 0 <= j < e@.len() ==> #[trigger] vals[j] == e@[j]@,
            texts_of(out@) == bulk_texts(vals.subrange(from as int, i as int)),
        decreases e@.len() - i,
    {
        let ghost before = out@;
        let ghost sub = vals.subrange(from as int, i + 1);
        assert(sub.drop_last() =~= vals.subrange(from as int, i as int));
        assert(sub.last() == vals[i as int]);
        match &e[i] {
            RespData::BulkString(Some(b)) => {
                let t = lossy_to_string(b.as_slice());
                proof {
                    lemma_texts_push(out@, t);
                }
                out.push(t);
                assert(texts_of(out@) =~= bulk_texts(sub));
            },
            _ => {
                assert(texts_of(out@) =~= bulk_texts(sub));
            },
        }
        i = i + 1;
    }
    out
}

/// Looks for the first `PX` among `args` and reads the number after it.
fn expiry_from(args: &Vec<String>) -> (r: Result<Option<u64>, ParseError>)
    ensures
        match expiry_of(texts_of(args@)) {
            Ok(Some(ms)) => r == Ok::<Option<u64>, ParseError>(Some(ms as u64)),
            Ok(None) => r == Ok::<Option<u64>, ParseError>(None),
            Err(e) => r == Err::<Option<u64>, ParseError>(e),
        },
{
    let ghost a = texts_of(args@);
    assert(a.len() == args@.len());
    let mut i: usize = 0;
    while i < args.len()
        invariant
            a == texts_of(args@),
            a.len() == args@.len(),
            i <= args@.len(),
            forall|j: int| 0 <= j < i ==> upper_text(#[trigger] a[j]) != "PX"@,
        decreases args@.len() - i,
    {
        let up = uppercase(args[i].as_str());
        if text_is(&up, "PX") {
            assert(is_first_px(a, i as int));
            proof {
                let c = choose|c: int| is_first_px(a, c);
                assert(is_first_px(a, c));
                if c < i {
                    assert(upper_text(a[c]) != "PX"@);
                } else if c > i {
                    assert(upper_text(a[i as int]) == "PX"@);
                }
            }
            if i + 1 < args.len() {
                return match read_u64(args[i + 1].as_str().as_bytes()) {
                    Some(ms) => Ok(Some(ms)),
                    None => Err(ParseError::BadExpiry),
                };
            } else {
                return Ok(None);
            }
        }
        i = i + 1;
    }
    proof {
        if exists|c: int| is_first_px(a, c) {
            let c = choose|c: int| is_first_px(a, c);
            assert(upper_text(a[c]) != "PX"@);
        }
    }
    Ok(None)
}

fn rest_from(e: &Vec<RespData>, from: usize) -> (r: Vec<RespData>)
    requires
        from <= e@.len(),
    ensures
        values_of(r@) == values_of(e@).subrange(from as int, e@.len() as int),
{
    proof {
        lemma_values_of(e@);
    }
    let ghost vals = values_of(e@);
    let mut out: Vec<RespData> = Vec::new();
    let mut i: usize = from;
    assert(values_of(out@) =~= vals.subrange(from as int, from as int));
    while i < e.len()
        invariant
            from <= i <= e@.len(),
            vals == values_of(e@),
            vals.len() == e@.len(),
            forall|j: int| 0 <= j < e@.len() ==> #[trigger] vals[j] == e@[j]@,
            values_of(out@) == vals.subrange(from as int, i as int),
        decreases e@.len() - i,
    {
        let d = e[i].duplicate();
        proof {
            crate::resp::lemma_values_of_push(out@, d);
            assert(vals.subrange(from as int, i as int).push(d@) =~= vals.subrange(from as int, i + 1));
        }
        out.push(d);
        i = i + 1;
    }
    out
}

impl Command {
    /// The command that a request names, given its name already upper-cased and
    /// all the request's elements (the name is the first of them).
    pub fn from_parts(name: &String, e: &Vec<RespData>) -> (r: Result<Command, ParseError>)
        ensures
            parsed(r, parse_spec(name@, values_of(e@))),
    {
        proof {
            lemma_values_of(e@);
            reveal_strlit("PING");
            reveal_strlit("ECHO");
            reveal_strlit("SET");
            reveal_strlit("GET");
            reveal_strlit("LPUSH");
            reveal_strlit("RPUSH");
            reveal_strlit("LRANGE");
            reveal_strlit("LLEN");
            reveal_strlit("LPOP");
            reveal_strlit("RPOP");
            reveal_strlit("BLPOP");
            reveal_strlit("BRPOP");
        }
        let ghost vals = values_of(e@);
        if text_is(name, "PING") {
            return Ok(Command::Ping);
        }
        if text_is(name, "ECHO") {
            return match text_at(e, 1) {
                Some(t) => Ok(Command::Echo(t)),
                None => Err(ParseError::BadArgument),
            };
        }
        if text_is(name, "SET") {
            let key = match text_at(e, 1) {
                Some(k) => k,
                None => {
                    return Err(ParseError::BadArgument);
                },
            };
            if e.len() <= 2 {
                return Err(ParseError::BadArgument);
            }
            let args = if e.len() > 3 {
                bulk_texts_from(e, 3)
            } else {
                let none: Vec<String> = Vec::new();
                assert(texts_of(none@) =~= bulk_texts(vals.subrange(3, e@.len() as int)));
                none
            };
            let expires = match expiry_from(&args) {
                Ok(x) => x,
                Err(err) => {
                    return Err(err);
                },
            };
            let value = e[2].duplicate();
            return Ok(Command::SetKey { key, value, expires, args });
        }
        if text_is(name, "GET") {
            return match text_at(e, 1) {
                Some(k) => Ok(Command::Get(k)),
                None => Err(ParseError::BadArgument),
            };
        }
        let left_push = text_is(name, "LPUSH");
        if left_push || text_is(name, "RPUSH") {
            let key = match text_at(e, 1) {
                Some(k) => k,
                None => {
                    return Err(ParseError::BadArgument);
                },
            };
            if e.len() <= 2 {
                return Err(ParseError::BadArgument);
            }
            let values = rest_from(e, 2);
            let direction = if left_push {
                PushPopDirection::Left
            } else {
                PushPopDirection::Right
            };
            return Ok(Command::ListPush { key, values, direction });
        }
        if text_is(name, "LRANGE") {
            let key = match text_at(e, 1) {
                Some(k) => k,
                None => {
                    return Err(ParseError::BadArgument);
                },
            };
            if e.len() <= 3 {
                return Err(ParseError::BadArgument);
            }
            return match (e[2].as_number(), e[3].as_number()) {
                (Some(start), Some(end)) => Ok(Command::ListRange { key, start, end }),
                _ => Err(ParseError::BadArgument),
            };
        }
        if text_is(name, "LLEN") {
            return match text_at(e, 1) {
                Some(k) => Ok(Command::ListLen(k)),
                None => Err(ParseError::BadArgument),
            };
        }
        let lpop = text_is(name, "LPOP");
        let rpop = text_is(name, "RPOP");
        let blpop = text_is(name, "BLPOP");
        let brpop = text_is(name, "BRPOP");
        if lpop || rpop || blpop || brpop {
            let key = match text_at(e, 1) {
                Some(k) => k,
                None => {
                    return Err(ParseError::BadArgument);
                },
            };
            let direction = if rpop || brpop {
                PushPopDirection::Right
            } else {
                PushPopDirection::Left
            };
            let number = small_number(e, 2);
            if blpop || brpop {
                return Ok(Command::ListPop { key, count: 1, direction, blocking: number });
            }
            let count = match number {
                Some(n) => n,
                None => 1,
            };
            return Ok(Command::ListPop { key, count, direction, blocking: None });
        }
        Err(ParseError::UnknownCommand)
    }
}

impl TryFrom<RespData> for Command {
    type Error = ParseError;

    /// The command that a request names: a non-empty array whose first element,
    /// a bulk string, is the command's name in any case.
    fn try_from(value: RespData) -> (r: Result<Command, ParseError>)
        ensures
            parsed(r, request_spec(value@)),
    {
        match value {
            RespData::Array(Some(e)) => {
                proof {
                    lemma_values_of(e@);
                }
                if e.len() == 0 {
                    return Err(ParseError::NotACommand);
                }
                let name = match &e[0] {
                    RespData::BulkString(Some(b)) => uppercase(lossy_to_string(b.as_slice()).as_str()),
                    _ => {
                        return Err(ParseError::BadName);
                    },
                };
                Command::from_parts(&name, &e)
            },
            _ => Err(ParseError::NotACommand),
        }
    }
}

impl vstd::std_specs::convert::TryFromSpecImpl<RespData> for Command {
    open spec fn obeys_try_from_spec() -> bool {
        false
    }

    open spec fn try_from_spec(v: RespData) -> Result<Command, ParseError> {
        Err(ParseError::NotACommand)
    }
}

/// What the connection does after a command, and with what reply.
pub enum Step {
    /// Send the reply.
    Reply(RespData),
    /// Send the reply, and remove `key` once `millis` milliseconds have passed.
    ReplyThenExpire { reply: RespData, key: String, millis: u64 },
    /// Wait on `signal` until a push gives it or `timeout_secs` seconds pass (no
    /// limit when 0), then call `AppState::finish_blocking_pop`.
    Park { key: String, direction: PushPopDirection, timeout_secs: u32, signal: Arc<Notify> },
}

/// A step as the contracts see it; a parked step's signal is left out.
pub enum StepView {
    Reply(Value),
    ReplyThenExpire { reply: Value, key: Seq<char>, millis: nat },
    Park { key: Seq<char>, direction: PushPopDirection, timeout_secs: nat },
}

impl View for Step {
    type V = StepView;

    open spec fn view(&self) -> StepView {
        match *self {
            Step::Reply(d) => StepView::Reply(d@),
            Step::ReplyThenExpire { reply, key, millis } => StepView::ReplyThenExpire {
                reply: reply@,
                key: key@,
                millis: millis as nat,
            },
            Step::Park { key, direction, timeout_secs, .. } => StepView::Park {
                key: key@,
                direction,
                timeout_secs: timeout_secs as nat,
            },
        }
    }
}

pub open spec fn step_view(r: Result<Step, ExecError>) -> Result<StepView, ExecError> {
    match r {
        Ok(s) => Ok(s@),
        Err(e) => Err(e),
    }
}

pub open spec fn reply_step(r: Result<Value, ExecError>) -> Result<StepView, ExecError> {
    match r {
        Ok(v) => Ok(StepView::Reply(v)),
        Err(e) => Err(e),
    }
}

/// What carrying out a command does to the store, and the step that follows.
pub open spec fn handle_spec(c: CommandView, m: Model) -> (Model, Result<StepView, ExecError>) {
    match c {
        CommandView::Ping => (m, Ok(StepView::Reply(Value::SimpleString("PONG"@)))),
        CommandView::Echo(t) => (m, Ok(StepView::Reply(Value::BulkString(Some(encode_utf8(t)))))),
        CommandView::SetKey { key, value, expires, .. } => (
            Model { entries: m.entries.insert(key, value), ..m },
            Ok(
                match expires {
                    Some(ms) => StepView::ReplyThenExpire {
                        reply: Value::SimpleString("OK"@),
                        key,
                        millis: ms,
                    },
                    None => StepView::Reply(Value::SimpleString("OK"@)),
                },
            ),
        ),
        CommandView::Get(k) => (m, Ok(StepView::Reply(get_reply(m.entries, k)))),
        CommandView::ListPush { key, values, direction } => {
            let (m2, r) = push_spec(m, key, values, direction);
            (m2, reply_step(r))
        },
        CommandView::ListRange { key, start, end } => (
            m,
            Ok(StepView::Reply(Value::Array(Some(range_of(list_at(m.entries, key), start, end))))),
        ),
        CommandView::ListLen(k) => (m, reply_step(len_spec(m, k))),
        CommandView::ListPop { key, count, direction, blocking } => match blocking {
            None => {
                let (m2, v) = pop_spec(m, key, count, direction);
                (m2, Ok(StepView::Reply(v)))
            },
            Some(t) => if m.waiters.contains_key(key) && m.waiters[key] == u32::MAX {
                (m, Ok(StepView::Reply(Value::BulkString(None))))
            } else {
                (
                    Model { waiters: registered(m.waiters, key), ..m },
                    Ok(StepView::Park { key, direction, timeout_secs: t }),
                )
            },
        },
    }
}

impl Command {
    /// Carries the command out on the store. A blocking pop only parks here: the
    /// caller releases the store, waits, and ends it with
    /// `AppState::finish_blocking_pop`.
    pub fn handle(self, state: &mut AppState) -> (r: Result<Step, ExecError>)
        ensures
            (final(state).model(), step_view(r)) == handle_spec(self@, old(state).model()),
    {
        proof {
            reveal_strlit("PONG");
            reveal_strlit("OK");
        }
        match self {
            Command::Ping => Ok(Step::Reply(RespData::simple_string("PONG"))),
            Command::Echo(t) => Ok(Step::Reply(RespData::bulk_string(t.as_str()))),
            Command::SetKey { key, value, expires, args: _ } => {
                match expires {
                    Some(ms) => {
                        let k2 = key.clone();
                        state.set(key, value);
                        Ok(
                            Step::ReplyThenExpire {
                                reply: RespData::simple_string("OK"),
                                key: k2,
                                millis: ms,
                            },
                        )
                    },
                    None => {
                        state.set(key, value);
                        Ok(Step::Reply(RespData::simple_string("OK")))
                    },
                }
            },
            Command::Get(k) => Ok(Step::Reply(state.get(&k))),
            Command::ListPush { key, values, direction } => {
                match state.list_push(&key, values, direction) {
                    Ok(d) => Ok(Step::Reply(d)),
                    Err(e) => Err(e),
                }
            },
            Command::ListRange { key, start, end } => Ok(
                Step::Reply(state.list_range(&key, start, end)),
            ),
            Command::ListLen(k) => match state.list_len(&k) {
                Ok(d) => Ok(Step::Reply(d)),
                Err(e) => Err(e),
            },
            Command::ListPop { key, count, direction, blocking } => match blocking {
                None => Ok(Step::Reply(state.list_pop(&key, count, direction))),
                Some(t) => match state.register_waiter(&key) {
                    Some(signal) => Ok(Step::Park { key, direction, timeout_secs: t, signal }),
                    None => Ok(Step::Reply(RespData::null_bulk_string())),
                },
            },
        }
    }
}

/// A range from 0 to -1 is the whole list.
pub proof fn lemma_full_range(l: Seq<Value>)
    ensures
        range_of(l, 0, -1) == l,
{
    assert(l.subrange(0, l.len() as int) =~= l);
}

/// Each value pushed at the left goes before the ones pushed earlier: after
/// `LPUSH k a b c`, the whole list reads `c b a` and then what `k` held before.
pub proof fn lemma_left_push_order(m: Model, k: Seq<char>, vals: Seq<Value>)
    requires
        !holds_other(m.entries, k),
        list_at(m.entries, k).len() + vals.len() <= i64::MAX,
    ensures
        ({
            let push = CommandView::ListPush { key: k, values: vals, direction: PushPopDirection::Left };
            let (m2, r) = handle_spec(push, m);
            let range = CommandView::ListRange { key: k, start: 0, end: -1 };
            &&& r == Ok::<StepView, ExecError>(
                StepView::Reply(Value::Integer((list_at(m.entries, k).len() + vals.len()) as int)),
            )
            &&& handle_spec(range, m2).1 == Ok::<StepView, ExecError>(
                StepView::Reply(Value::Array(Some(vals.reverse() + list_at(m.entries, k)))),
            )
        }),
{
    let l = vals.reverse() + list_at(m.entries, k);
    let (m2, r) = push_spec(m, k, vals, PushPopDirection::Left);
    assert(m2.entries.contains_key(k) && m2.entries[k] == Value::Array(Some(l)));
    assert(list_at(m2.entries, k) == l);
    lemma_full_range(l);
}

/// A pop that does not wait, on an absent key, replies with the empty array and
/// leaves the store as it was: no key is made.
pub proof fn lemma_pop_absent_key(m: Model, k: Seq<char>, count: nat, direction: PushPopDirection)
    requires
        !m.entries.contains_key(k),
    ensures
        handle_spec(CommandView::ListPop { key: k, count, direction, blocking: None }, m) == (
            m,
            Ok::<StepView, ExecError>(StepView::Reply(Value::Array(Some(Seq::empty())))),
        ),
{
    assert(m.entries.remove(k) =~= m.entries);
}

} // verus!
