//! A cursor over the items of one decoded wire array, handing them out one
//! at a time as the command layer asks for strings and integers.

use crate::error::{Error, ErrorKind};
use crate::resp::Resp;
use vstd::prelude::*;
use vstd::string::StringExecFns;

verus! {

/// A cursor over the items of one wire array.
pub struct Parser {
    items: Vec<Resp>,
    pos: usize,
}

impl Parser {
    /// The items being walked.
    pub closed spec fn sitems(self) -> Seq<Resp> {
        self.items@
    }

    /// How many items have been handed out.
    pub closed spec fn spos(self) -> int {
        self.pos as int
    }

    /// The cursor never passes the end.
    pub closed spec fn wf(self) -> bool {
        self.pos <= self.items@.len()
    }

    /// Wraps the items of one array; any other item is refused.
    pub fn new(data: Resp) -> (r: Result<Parser, Error>)
        ensures
            r is Ok <==> data matches Resp::Array(_),
            r matches Ok(p) ==> p.wf() && p.spos() == 0 && (data matches Resp::Array(a)
                && p.sitems() == a@),
            r matches Err(e) ==> e.skind() is StringError,
    {
        let d = match data {
            Resp::Array(array) => array,
            _ => {
                return Err(Error::new(ErrorKind::StringError(String::from_str(
                    "expected array",
                ))));
            },
        };
        Ok(Parser { items: d, pos: 0 })
    }

    /// The next item, or an end-of-stream error when none is left.
    fn next(&mut self) -> (r: Result<&Resp, Error>)
        requires
            old(self).wf(),
        ensures
            final(self).wf(),
            final(self).sitems() == old(self).sitems(),
            old(self).spos() < old(self).sitems().len() ==> {
                &&& r matches Ok(x)
                &&& *r->Ok_0 == old(self).sitems()[old(self).spos()]
                &&& final(self).spos() == old(self).spos() + 1
            },
            old(self).spos() >= old(self).sitems().len() ==> {
                &&& r matches Err(e) && e.skind() is EOS
                &&& final(self).spos() == old(self).spos()
            },
    {
        if self.pos < self.items.len() {
            let i = self.pos;
            self.pos = i + 1;
            Ok(&self.items[i])
        } else {
            Err(Error::new(ErrorKind::EOS))
        }
    }

    /// The next item as a string; a bulk or simple string is accepted and
    /// consumed, anything else is a protocol error, the stream's end an
    /// end-of-stream error.
    pub fn next_string(&mut self) -> (r: Result<String, Error>)
        requires
            old(self).wf(),
        ensures
            final(self).wf(),
            final(self).sitems() == old(self).sitems(),
            ({
                let i = old(self).spos();
                let its = old(self).sitems();
                if i < its.len() {
                    final(self).spos() == i + 1 && match its[i] {
                        Resp::BulkString(s) => r matches Ok(x) && x@ == s@,
                        Resp::SimpleString(s) => r matches Ok(x) && x@ == s@,
                        _ => r matches Err(e) && e.skind() is Protocol,
                    }
                } else {
                    r matches Err(e) && e.skind() is EOS
                }
            }),
    {
        match self.next()? {
            Resp::BulkString(s) => Ok(s.clone()),
            Resp::SimpleString(s) => Ok(s.clone()),
            _ => Err(Error::new(ErrorKind::Protocol(String::from_str(
                "unexpected item, expected a string",
            )))),
        }
    }

    /// The next item as an integer; anything else is a protocol error, the
    /// stream's end an end-of-stream error.
    pub fn next_integer(&mut self) -> (r: Result<i64, Error>)
        requires
            old(self).wf(),
        ensures
            final(self).wf(),
            final(self).sitems() == old(self).sitems(),
            ({
                let i = old(self).spos();
                let its = old(self).sitems();
                if i < its.len() {
                    final(self).spos() == i + 1 && match its[i] {
                        Resp::Integer(v) => r matches Ok(x) && x == v,
                        _ => r matches Err(e) && e.skind() is Protocol,
                    }
                } else {
                    r matches Err(e) && e.skind() is EOS
                }
            }),
    {
        match self.next()? {
            Resp::Integer(i) => Ok(*i),
            _ => Err(Error::new(ErrorKind::Protocol(String::from_str(
                "unexpected item, expected an integer",
            )))),
        }
    }

    /// Succeeds exactly when every item has been consumed.
    pub fn check_finish(&mut self) -> (r: Result<(), Error>)
        requires
            old(self).wf(),
        ensures
            final(self).wf(),
            final(self).sitems() == old(self).sitems(),
            r is Ok <==> old(self).spos() == old(self).sitems().len(),
            r is Ok ==> final(self).spos() == old(self).spos(),
            r matches Err(e) ==> e.skind() is Protocol && final(self).spos() == old(self).spos()
                + 1,
    {
        match self.next() {
            Err(_) => Ok(()),
            Ok(_) => Err(Error::new(ErrorKind::Protocol(String::from_str(
                "unexpected item, expected end of stream",
            )))),
        }
    }
}

} // verus!
