//! The error kinds of the store, from framing to transport.
use vstd::prelude::*;

verus! {

#[derive(Debug, PartialEq, Eq, Clone, Copy, Structural)]
pub enum RedisErr {
    // framing
    FrameIncomplete,
    FrameMalformed,
    // requests
    InvalidProtocol,
    SyntaxError,
    WrongNumberOfArguments,
    InvalidArgument,
    UnknownCommand,
    // the keyspace
    NoAction,
    WrongType,
    KeyNotFound,
    OutOfMemory,
    // the server
    WrongAddressFormat,
    IOError,
    PollError,
    ConnectionAborted,
}

/// The ways a request can fail to be read as a command.
#[derive(Debug, PartialEq, Eq, Clone, Copy, Structural)]
pub enum CommandErr {
    InvalidProtocol,
    SyntaxError,
    WrongNumberOfArguments,
    InvalidArgument,
    UnknownCommand,
}

impl CommandErr {
    /// The same failure as an error of the store.
    pub fn to_redis_err(self) -> (r: RedisErr)
        ensures
            r == (match self {
                CommandErr::InvalidProtocol => RedisErr::InvalidProtocol,
                CommandErr::SyntaxError => RedisErr::SyntaxError,
                CommandErr::WrongNumberOfArguments => RedisErr::WrongNumberOfArguments,
                CommandErr::InvalidArgument => RedisErr::InvalidArgument,
                CommandErr::UnknownCommand => RedisErr::UnknownCommand,
            }),
    {
        match self {
            CommandErr::InvalidProtocol => RedisErr::InvalidProtocol,
            CommandErr::SyntaxError => RedisErr::SyntaxError,
            CommandErr::WrongNumberOfArguments => RedisErr::WrongNumberOfArguments,
            CommandErr::InvalidArgument => RedisErr::InvalidArgument,
            CommandErr::UnknownCommand => RedisErr::UnknownCommand,
        }
    }
}

/// The name of an error kind, as `Debug` writes it.
pub open spec fn err_name(e: RedisErr) -> Seq<char> {
    match e {
        RedisErr::FrameIncomplete => "FrameIncomplete"@,
        RedisErr::FrameMalformed => "FrameMalformed"@,
        RedisErr::InvalidProtocol => "InvalidProtocol"@,
        RedisErr::SyntaxError => "SyntaxError"@,
        RedisErr::WrongNumberOfArguments => "WrongNumberOfArguments"@,
        RedisErr::InvalidArgument => "InvalidArgument"@,
        RedisErr::UnknownCommand => "UnknownCommand"@,
        RedisErr::NoAction => "NoAction"@,
        RedisErr::WrongType => "WrongType"@,
        RedisErr::KeyNotFound => "KeyNotFound"@,
        RedisErr::OutOfMemory => "OutOfMemory"@,
        RedisErr::WrongAddressFormat => "WrongAddressFormat"@,
        RedisErr::IOError => "IOError"@,
        RedisErr::PollError => "PollError"@,
        RedisErr::ConnectionAborted => "ConnectionAborted"@,
    }
}

impl RedisErr {
    /// The name of the error kind, as `Debug` writes it.
    pub fn name(&self) -> (r: &'static str)
        ensures
            r@ == err_name(*self),
    {
        let r = match self {
            RedisErr::FrameIncomplete => "FrameIncomplete",
            RedisErr::FrameMalformed => "FrameMalformed",
            RedisErr::InvalidProtocol => "InvalidProtocol",
            RedisErr::SyntaxError => "SyntaxError",
            RedisErr::WrongNumberOfArguments => "WrongNumberOfArguments",
            RedisErr::InvalidArgument => "InvalidArgument",
            RedisErr::UnknownCommand => "UnknownCommand",
            RedisErr::NoAction => "NoAction",
            RedisErr::WrongType => "WrongType",
            RedisErr::KeyNotFound => "KeyNotFound",
            RedisErr::OutOfMemory => "OutOfMemory",
            RedisErr::WrongAddressFormat => "WrongAddressFormat",
            RedisErr::IOError => "IOError",
            RedisErr::PollError => "PollError",
            RedisErr::ConnectionAborted => "ConnectionAborted",
        };
        r
    }
}

} // verus!
