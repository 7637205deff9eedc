//! Commands: what a decoded request asks for.

use crate::decimal::{parse_u64, parse_unsigned};
use crate::resp::{lemma_views, views, DataType};
use crate::wire::Value;
use vstd::prelude::*;
use vstd::slice::slice_to_vec;
use vstd::string::StringSliceAdditionalSpecFns;

verus! {

/// A request, once its shape has been checked.
#[derive(Debug, PartialEq, Eq)]
pub enum Command {
    Ping,
    Echo(Vec<u8>),
    Get(Vec<u8>),
    /// `SET`: key, value, and the time to live in milliseconds, if one was
    /// given.
    SetKey(Vec<u8>, Vec<u8>, Option<u64>),
    Info(Vec<u8>),
    /// A request that is none of the others, with the reason or the command
    /// word.
    Unknown(Vec<u8>),
}

/// The mathematical model of a command.
pub enum CommandView {
    Ping,
    Echo(Seq<u8>),
    Get(Seq<u8>),
    SetKey(Seq<u8>, Seq<u8>, Option<u64>),
    Info(Seq<u8>),
    Unknown(Seq<u8>),
}

impl View for Command {
    type V = CommandView;

    open spec fn view(&self) -> CommandView {
        match self {
            Command::Ping => CommandView::Ping,
            Command::Echo(arg) => CommandView::Echo(arg@),
            Command::Get(key) => CommandView::Get(key@),
            Command::SetKey(key, value, ttl) => CommandView::SetKey(key@, value@, *ttl),
            Command::Info(section) => CommandView::Info(section@),
            Command::Unknown(reason) => CommandView::Unknown(reason@),
        }
    }
}

impl Clone for Command {
    fn clone(&self) -> (copy: Self)
        ensures
            copy@ == self@,
    {
        match self {
            Command::Ping => Command::Ping,
            Command::Echo(arg) => Command::Echo(slice_to_vec(arg.as_slice())),
            Command::Get(key) => Command::Get(slice_to_vec(key.as_slice())),
            Command::SetKey(key, value, ttl) => Command::SetKey(
                slice_to_vec(key.as_slice()),
                slice_to_vec(value.as_slice()),
                *ttl,
            ),
            Command::Info(section) => Command::Info(slice_to_vec(section.as_slice())),
            Command::Unknown(reason) => Command::Unknown(slice_to_vec(reason.as_slice())),
        }
    }
}

/// The bytes of a text.
pub open spec fn text(s: &str) -> Seq<u8> {
    s.spec_bytes()
}

/// The lower-case form of an ASCII letter; any other byte unchanged.
pub open spec fn ascii_lower(b: u8) -> u8 {
    if 65 <= b <= 90 {
        (b + 32) as u8
    } else {
        b
    }
}

/// The bytes of `s` with each ASCII letter in lower case.
pub open spec fn lowercase(s: Seq<u8>) -> Seq<u8> {
    Seq::new(s.len(), |i: int| ascii_lower(s[i]))
}

/// The bytes of a string-like value: a simple string or a bulk string.
pub open spec fn string_like(v: Value) -> Option<Seq<u8>> {
    match v {
        Value::SimpleString(s) => Some(s),
        Value::BulkString(s) => Some(s),
        _ => None,
    }
}

/// The bytes of the element at `i`, where there is one and it is string-like.
pub open spec fn argument(items: Seq<Value>, i: int) -> Option<Seq<u8>> {
    if 0 <= i < items.len() {
        string_like(items[i])
    } else {
        None
    }
}

/// The text that answers a missing or wrong-typed argument.
pub open spec fn expected_string() -> CommandView {
    CommandView::Unknown(text("expected a bulk string"))
}

/// `SET key value [PX milliseconds]`.
pub open spec fn parse_set(items: Seq<Value>) -> CommandView {
    match (argument(items, 1), argument(items, 2)) {
        (Some(key), Some(value)) => {
            if items.len() <= 3 {
                CommandView::SetKey(key, value, None)
            } else {
                match string_like(items[3]) {
                    None => CommandView::Unknown(text("Invalid argument type for SET option")),
                    Some(option) => if lowercase(option) != text("px") {
                        CommandView::SetKey(key, value, None)
                    } else if items.len() <= 4 {
                        CommandView::Unknown(text("PX option requires a value"))
                    } else {
                        match string_like(items[4]) {
                            None => CommandView::Unknown(text("Invalid value for PX option")),
                            Some(amount) => match parse_unsigned(amount) {
                                None => CommandView::Unknown(
                                    text("PX value must be a positive integer"),
                                ),
                                Some(ms) => CommandView::SetKey(key, value, Some(ms as u64)),
                            },
                        }
                    },
                }
            }
        },
        _ => expected_string(),
    }
}

/// The command that a decoded value asks for. A value of any other shape
/// than the commands have is `Unknown`, with the reason.
pub open spec fn parse_command(v: Value) -> CommandView {
    match v {
        Value::Array(items) => {
            if items.len() == 0 {
                CommandView::Unknown(text("empty command"))
            } else {
                match string_like(items[0]) {
                    None => expected_string(),
                    Some(word) => {
                        let name = lowercase(word);
                        if name == text("ping") {
                            CommandView::Ping
                        } else if name == text("echo") {
                            match argument(items, 1) {
                                Some(arg) => CommandView::Echo(arg),
                                None => expected_string(),
                            }
                        } else if name == text("get") {
                            match argument(items, 1) {
                                Some(key) => CommandView::Get(key),
                                None => expected_string(),
                            }
                        } else if name == text("set") {
                            parse_set(items)
                        } else if name == text("info") {
                            match argument(items, 1) {
                                Some(section) => CommandView::Info(section),
                                None => expected_string(),
                            }
                        } else {
                            CommandView::Unknown(word)
                        }
                    },
                }
            }
        },
        _ => CommandView::Unknown(text("expected an array")),
    }
}

/// The bytes of a text, in a vector of their own.
pub(crate) fn bytes_of(s: &str) -> (out: Vec<u8>)
    ensures
        out@ == text(s),
{
    slice_to_vec(s.as_bytes())
}

/// Tells whether the lower-case form of `word` is `name`.
fn lowercase_is(word: &[u8], name: &str) -> (r: bool)
    ensures
        r == (lowercase(word@) == text(name)),
{
    let pattern = name.as_bytes();
    if word.len() != pattern.len() {
        return false;
    }
    let mut i: usize = 0;
    while i < word.len()
        invariant
            i <= word@.len(),
            word@.len() == pattern@.len(),
            pattern@ == text(name),
            forall|j: int| 0 <= j < i ==> lowercase(word@)[j] == pattern@[j],
        decreases word@.len() - i,
    {
        let b = word[i];
        let lower: u8 = if 65 <= b && b <= 90 {
            b + 32
        } else {
            b
        };
        if lower != pattern[i] {
            assert(lowercase(word@)[i as int] != pattern@[i as int]);
            return false;
        }
        i = i + 1;
    }
    assert(lowercase(word@) =~= pattern@);
    true
}

/// A copy of the bytes of the element at `i`, where there is one and it is
/// string-like.
fn argument_at(items: &Vec<DataType>, i: usize) -> (r: Option<Vec<u8>>)
    ensures
        match r {
            Some(bytes) => argument(views(items@), i as int) == Some(bytes@),
            None => argument(views(items@), i as int) is None,
        },
{
    proof {
        lemma_views(items@);
    }
    if i >= items.len() {
        return None;
    }
    match &items[i] {
        DataType::SimpleString(s) => Some(slice_to_vec(s.as_slice())),
        DataType::BulkString(s) => Some(slice_to_vec(s.as_slice())),
        _ => None,
    }
}

/// The answer to a missing or wrong-typed argument.
fn expected_string_reply() -> (cmd: Command)
    ensures
        cmd@ == expected_string(),
{
    Command::Unknown(bytes_of("expected a bulk string"))
}

/// `SET key value [PX milliseconds]`.
fn parse_set_request(items: &Vec<DataType>) -> (cmd: Command)
    ensures
        cmd@ == parse_set(views(items@)),
{
    proof {
        lemma_views(items@);
    }
    let key = match argument_at(items, 1) {
        Some(key) => key,
        None => {
            return expected_string_reply();
        },
    };
    let value = match argument_at(items, 2) {
        Some(value) => value,
        None => {
            return expected_string_reply();
        },
    };
    if items.len() <= 3 {
        return Command::SetKey(key, value, None);
    }
    let option = match argument_at(items, 3) {
        Some(option) => option,
        None => {
            return Command::Unknown(bytes_of("Invalid argument type for SET option"));
        },
    };
    if !lowercase_is(option.as_slice(), "px") {
        return Command::SetKey(key, value, None);
    }
    if items.len() <= 4 {
        return Command::Unknown(bytes_of("PX option requires a value"));
    }
    let amount = match argument_at(items, 4) {
        Some(amount) => amount,
        None => {
            return Command::Unknown(bytes_of("Invalid value for PX option"));
        },
    };
    match parse_u64(amount.as_slice()) {
        Some(ms) => Command::SetKey(key, value, Some(ms)),
        None => Command::Unknown(bytes_of("PX value must be a positive integer")),
    }
}

impl Command {
    /// The command that a decoded value asks for. It never fails: a value of
    /// any other shape than the commands have becomes `Unknown`.
    pub fn parse(v: DataType) -> (cmd: Command)
        ensures
            cmd@ == parse_command(v@),
    {
        let items = match v {
            DataType::Array(items) => items,
            _ => {
                return Command::Unknown(bytes_of("expected an array"));
            },
        };
        proof {
            lemma_views(items@);
        }
        if items.len() == 0 {
            return Command::Unknown(bytes_of("empty command"));
        }
        let word = match argument_at(&items, 0) {
            Some(word) => word,
            None => {
                return expected_string_reply();
            },
        };
        if lowercase_is(word.as_slice(), "ping") {
            Command::Ping
        } else if lowercase_is(word.as_slice(), "echo") {
            match argument_at(&items, 1) {
                Some(arg) => Command::Echo(arg),
                None => expected_string_reply(),
            }
        } else if lowercase_is(word.as_slice(), "get") {
            match argument_at(&items, 1) {
                Some(key) => Command::Get(key),
                None => expected_string_reply(),
            }
        } else if lowercase_is(word.as_slice(), "set") {
            parse_set_request(&items)
        } else if lowercase_is(word.as_slice(), "info") {
            match argument_at(&items, 1) {
                Some(section) => Command::Info(section),
                None => expected_string_reply(),
            }
        } else {
            Command::Unknown(word)
        }
    }
}

} // verus!
