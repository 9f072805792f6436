//! The `del` command: remove one key.

use crate::error::Error;
use crate::parser::Parser;
use crate::resp::Resp;
use vstd::prelude::*;
use vstd::string::StringExecFns;

verus! {

/// A request to remove one key.
pub struct Del {
    key: String,
}

impl Del {
    /// The key to remove.
    pub closed spec fn skey(self) -> Seq<char> {
        self.key@
    }

    /// A new del command for `key`.
    pub fn new(key: String) -> (r: Self)
        ensures
            r.skey() == key@,
    {
        Del { key }
    }

    /// Reads the key out of the parser.
    pub fn from_parser(parser: &mut Parser) -> (r: Result<Self, Error>)
        requires
            old(parser).wf(),
        ensures
            final(parser).wf(),
            final(parser).sitems() == old(parser).sitems(),
            ({
                let i = old(parser).spos();
                let its = old(parser).sitems();
                if i < its.len() {
                    final(parser).spos() == i + 1 && match its[i] {
                        Resp::BulkString(s) => r matches Ok(d) && d.skey() == s@,
                        Resp::SimpleString(s) => r matches Ok(d) && d.skey() == s@,
                        _ => r is Err,
                    }
                } else {
                    r is Err
                }
            }),
    {
        Ok(Del { key: parser.next_string()? })
    }

    /// The key.
    pub fn key(&self) -> (r: &str)
        ensures
            r@ == self.skey(),
    {
        self.key.as_str()
    }

    /// The command as a wire item.
    pub fn into_resp(self) -> (r: Resp)
        ensures
            ({
                &&& r matches Resp::Array(a)
                &&& a@.len() == 2
                &&& a@[0] matches Resp::SimpleString(c) && c@ == "del"@
                &&& a@[1] matches Resp::BulkString(k) && k@ == self.skey()
            }),
    {
        Resp::Array(vec![Resp::SimpleString(String::from_str("del")), Resp::BulkString(self.key)])
    }
}

} // verus!
