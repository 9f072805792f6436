//! The `ping` command: a liveness probe with no arguments.

use crate::error::Error;
use crate::parser::Parser;
use crate::resp::Resp;
use vstd::prelude::*;
use vstd::string::StringExecFns;

verus! {

/// A liveness probe.
pub struct Ping {}

impl Ping {
    /// A new ping command.
    pub fn new() -> Self {
        Ping {  }
    }

    /// A ping takes no arguments, so nothing is read.
    pub fn from_parser(parser: &mut Parser) -> (r: Result<Self, Error>)
        requires
            old(parser).wf(),
        ensures
            *final(parser) == *old(parser),
            r is Ok,
    {
        let _ = parser;
        Ok(Ping {  })
    }

    /// The command as a wire item.
    pub fn into_resp(self) -> (r: Resp)
        ensures
            ({
                &&& r matches Resp::Array(a)
                &&& a@.len() == 1
                &&& a@[0] matches Resp::SimpleString(c) && c@ == "ping"@
            }),
    {
        Resp::Array(vec![Resp::SimpleString(String::from_str("ping"))])
    }
}

} // verus!
