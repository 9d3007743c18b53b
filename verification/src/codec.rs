//! Codecs for whole messages.
use vstd::prelude::*;

use crate::command;
use crate::command::{command, Command};
use crate::encode::{EncodeContext, EncodeIntoContext, Encoded};
use crate::grammar::{IMAPParseError, Outcome};
use crate::response;
use crate::response::{response, Response};

verus! {

/// Why bytes are no command, or not yet one.
#[derive(Clone, Copy, Debug, PartialEq, Eq, Structural)]
pub enum CommandDecodeError {
    /// More bytes are needed.
    Incomplete,
    /// The bytes end where a literal begins.
    LiteralFound { length: u64 },
    /// No further bytes will help.
    Failed,
}

/// Why bytes are no response, or not yet one.
#[derive(Clone, Copy, Debug, PartialEq, Eq, Structural)]
pub enum ResponseDecodeError {
    /// More bytes are needed.
    Incomplete,
    /// The bytes end where a literal begins.
    LiteralFound { length: u64 },
    /// No further bytes will help.
    Failed,
}

pub open spec fn command_error<T>(o: Outcome<T>) -> CommandDecodeError {
    match o {
        Outcome::More(None) => CommandDecodeError::Incomplete,
        Outcome::More(Some(length)) => CommandDecodeError::LiteralFound { length },
        _ => CommandDecodeError::Failed,
    }
}

pub open spec fn response_error<T>(o: Outcome<T>) -> ResponseDecodeError {
    match o {
        Outcome::More(None) => ResponseDecodeError::Incomplete,
        Outcome::More(Some(length)) => ResponseDecodeError::LiteralFound { length },
        _ => ResponseDecodeError::Failed,
    }
}

#[derive(Clone, Copy, Debug, PartialEq, Eq, Structural)]
pub struct CommandCodec;

impl Default for CommandCodec {
    fn default() -> (r: Self)
        ensures
            r == CommandCodec,
    {
        CommandCodec
    }
}

impl CommandCodec {
    /// Reads one command. What follows it is left over.
    pub fn decode<'a>(&self, input: &'a [u8]) -> (r: Result<
        (&'a [u8], Command),
        CommandDecodeError,
    >)
        ensures
            match r {
                Ok((rest, c)) => command::command_rule()(input@) == Outcome::Done(
                    rest@,
                    c.deep_view(),
                ),
                Err(e) => !(command::command_rule()(input@) is Done) && e == command_error(
                    command::command_rule()(input@),
                ),
            },
    {
        match command(input) {
            Ok(read) => Ok(read),
            Err(IMAPParseError::Incomplete) => Err(CommandDecodeError::Incomplete),
            Err(IMAPParseError::Literal { length }) => Err(
                CommandDecodeError::LiteralFound { length },
            ),
            Err(_) => Err(CommandDecodeError::Failed),
        }
    }

    pub fn encode(&self, c: &Command) -> (r: Encoded)
        ensures
            r@ == command::command_tokens(c.deep_view()),
    {
        let mut ctx = EncodeContext::new();
        c.encode_ctx(&mut ctx);
        assert(ctx@ =~= command::command_tokens(c.deep_view()));
        ctx.into_encoded()
    }
}

#[derive(Clone, Copy, Debug, PartialEq, Eq, Structural)]
pub struct ResponseCodec;

impl Default for ResponseCodec {
    fn default() -> (r: Self)
        ensures
            r == ResponseCodec,
    {
        ResponseCodec
    }
}

impl ResponseCodec {
    /// Reads one response. What follows it is left over.
    pub fn decode<'a>(&self, input: &'a [u8]) -> (r: Result<
        (&'a [u8], Response),
        ResponseDecodeError,
    >)
        ensures
            match r {
                Ok((rest, x)) => response::response_rule()(input@) == Outcome::Done(
                    rest@,
                    x.deep_view(),
                ),
                Err(e) => !(response::response_rule()(input@) is Done) && e == response_error(
                    response::response_rule()(input@),
                ),
            },
    {
        match response(input) {
            Ok(read) => Ok(read),
            Err(IMAPParseError::Incomplete) => Err(ResponseDecodeError::Incomplete),
            Err(IMAPParseError::Literal { length }) => Err(
                ResponseDecodeError::LiteralFound { length },
            ),
            Err(_) => Err(ResponseDecodeError::Failed),
        }
    }

    pub fn encode(&self, x: &Response) -> (r: Encoded)
        ensures
            r@ == response::response_tokens(x.deep_view()),
    {
        let mut ctx = EncodeContext::new();
        x.encode_ctx(&mut ctx);
        assert(ctx@ =~= response::response_tokens(x.deep_view()));
        ctx.into_encoded()
    }
}

} // verus!
