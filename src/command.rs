//! Commands typed at the store's prompt: `put <key> <value>` and `get <key>`.
use vstd::prelude::*;
use vstd::string::StringSliceAdditionalSpecFns;

use crate::words::{split_words, views, words};

verus! {

/// A line split into its operation word and the words that follow it.
#[derive(Debug)]
pub struct Command {
    pub operation: Vec<u8>,
    pub arguments: Vec<Vec<u8>>,
}

/// Why an input line is not a command the store carries out.
#[derive(Debug, Clone, Copy, PartialEq, Eq, Structural)]
pub enum CommandError {
    /// The line holds no word.
    Empty,
    /// The line holds an operation and nothing else.
    MissingArguments,
    /// The operation is neither `put` nor `get`.
    UnknownOperation,
    /// `put` without exactly a key and a value, or `get` without exactly a key.
    WrongArity,
}

/// An operation on the store, with its arguments.
#[derive(Debug)]
pub enum Request {
    Put { key: Vec<u8>, value: Vec<u8> },
    Get { key: Vec<u8> },
}

/// The word `put`.
pub open spec fn put_word() -> Seq<u8> {
    seq![0x70u8, 0x75u8, 0x74u8]
}

/// The word `get`.
pub open spec fn get_word() -> Seq<u8> {
    seq![0x67u8, 0x65u8, 0x74u8]
}

/// Splits `input` at whitespace: the first word is the operation, the rest
/// are its arguments. `Empty` where there is no word, `MissingArguments`
/// where there is only one.
pub fn parse_command(input: &str) -> (r: Result<Command, CommandError>)
    ensures
        ({
            let ws = words(input.spec_bytes());
            match r {
                Ok(c) => ws.len() >= 2 && c.operation@ == ws[0] && views(c.arguments@)
                    == ws.subrange(1, ws.len() as int),
                Err(e) => (ws.len() == 0 && e == CommandError::Empty) || (ws.len() == 1 && e
                    == CommandError::MissingArguments),
            }
        }),
{
    let bytes = input.as_bytes();
    let mut parts = split_words(bytes, 0, bytes.len());
    let ghost ws = views(parts@);
    proof {
        assert(bytes@.subrange(0, bytes@.len() as int) =~= bytes@);
    }
    if parts.len() == 0 {
        return Err(CommandError::Empty);
    }
    if parts.len() == 1 {
        return Err(CommandError::MissingArguments);
    }
    let operation = parts.remove(0);
    proof {
        assert(views(parts@) =~= ws.subrange(1, ws.len() as int));
    }
    Ok(Command { operation, arguments: parts })
}

/// Whether `w` is the three-byte word `a b c`.
fn is_word3(w: &[u8], a: u8, b: u8, c: u8) -> (r: bool)
    ensures
        r == (w@ == seq![a, b, c]),
{
    let r = w.len() == 3 && w[0] == a && w[1] == b && w[2] == c;
    proof {
        if w@.len() == 3 {
            if w@ == seq![a, b, c] {
                assert(w@[0] == a && w@[1] == b && w@[2] == c);
            }
            if r {
                assert(w@ =~= seq![a, b, c]);
            }
        }
    }
    r
}

impl Command {
    /// The request this command stands for: `put` takes a key and a value,
    /// `get` a key. `UnknownOperation` for any other operation, `WrongArity`
    /// for another number of arguments.
    pub fn request(self) -> (r: Result<Request, CommandError>)
        ensures
            ({
                let op = self.operation@;
                let args = views(self.arguments@);
                match r {
                    Ok(Request::Put { key, value }) => op == put_word() && args.len() == 2
                        && key@ == args[0] && value@ == args[1],
                    Ok(Request::Get { key }) => op == get_word() && args.len() == 1 && key@
                        == args[0],
                    Err(e) => if op == put_word() {
                        args.len() != 2 && e == CommandError::WrongArity
                    } else if op == get_word() {
                        args.len() != 1 && e == CommandError::WrongArity
                    } else {
                        e == CommandError::UnknownOperation
                    },
                }
            }),
    {
        let ghost args = views(self.arguments@);
        let mut arguments = self.arguments;
        if is_word3(self.operation.as_slice(), 0x70u8, 0x75u8, 0x74u8) {
            if arguments.len() != 2 {
                return Err(CommandError::WrongArity);
            }
            let value = arguments.remove(1);
            let key = arguments.remove(0);
            Ok(Request::Put { key, value })
        } else if is_word3(self.operation.as_slice(), 0x67u8, 0x65u8, 0x74u8) {
            if arguments.len() != 1 {
                return Err(CommandError::WrongArity);
            }
            let key = arguments.remove(0);
            Ok(Request::Get { key })
        } else {
            Err(CommandError::UnknownOperation)
        }
    }
}

} // verus!
