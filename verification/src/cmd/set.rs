//! The `set` command: bind one key to a value.

use crate::cmd::str_item;
use crate::error::Error;
use crate::parser::Parser;
use crate::resp::Resp;
use vstd::prelude::*;
use vstd::string::StringExecFns;

verus! {

/// A request to bind one key to a value.
pub struct SetCmd {
    key: String,
    val: String,
}

impl SetCmd {
    /// The key to bind.
    pub closed spec fn skey(self) -> Seq<char> {
        self.key@
    }

    /// The value to bind it to.
    pub closed spec fn sval(self) -> Seq<char> {
        self.val@
    }

    /// A new set command for `key` and `val`.
    pub fn new(key: String, val: String) -> (r: Self)
        ensures
            r.skey() == key@,
            r.sval() == val@,
    {
        SetCmd { key, val }
    }

    /// Reads the key and the value out of the parser, in that order: exactly
    /// when the next two items are strings, both are consumed and carried;
    /// anything else is an error.
    pub fn from_parser(parser: &mut Parser) -> (r: Result<Self, Error>)
        requires
            old(parser).wf(),
        ensures
            final(parser).wf(),
            final(parser).sitems() == old(parser).sitems(),
            ({
                let i = old(parser).spos();
                let its = old(parser).sitems();
                if i + 1 < its.len() && str_item(its[i]) is Some && str_item(its[i + 1])
                    is Some {
                    &&& r matches Ok(c)
                    &&& r->Ok_0.skey() == str_item(its[i])->Some_0
                    &&& r->Ok_0.sval() == str_item(its[i + 1])->Some_0
                    &&& final(parser).spos() == i + 2
                } else {
                    r is Err
                }
            }),
    {
        let key = parser.next_string()?;
        let val = parser.next_string()?;
        Ok(SetCmd { key, val })
    }

    /// The key.
    pub fn key(&self) -> (r: &str)
        ensures
            r@ == self.skey(),
    {
        self.key.as_str()
    }

    /// The value.
    pub fn val(&self) -> (r: &str)
        ensures
            r@ == self.sval(),
    {
        self.val.as_str()
    }

    /// The command as a wire item.
    pub fn into_resp(self) -> (r: Resp)
        ensures
            ({
                &&& r matches Resp::Array(a)
                &&& a@.len() == 3
                &&& a@[0] matches Resp::SimpleString(c) && c@ == "set"@
                &&& a@[1] matches Resp::BulkString(k) && k@ == self.skey()
                &&& a@[2] matches Resp::BulkString(v) && v@ == self.sval()
            }),
    {
        Resp::Array(
            vec![
                Resp::SimpleString(String::from_str("set")),
                Resp::BulkString(self.key),
                Resp::BulkString(self.val),
            ],
        )
    }
}

} // verus!
