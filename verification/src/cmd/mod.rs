//! The typed commands a wire request decodes to, and the dispatcher that
//! turns one wire array into the command it names.

use crate::error::{Error, ErrorKind};
use crate::parser::Parser;
use crate::resp::Resp;
use vstd::prelude::*;
use vstd::string::{StrSliceExecFns, StringExecFns};

mod get;
pub use get::Get;

mod ping;
pub use ping::Ping;

mod set;
pub use set::SetCmd;

mod del;
pub use del::Del;

verus! {

broadcast use vstd::string::group_string_axioms;

/// One typed request.
pub enum Cmd {
    Get(Get),
    Ping(Ping),
    Put(SetCmd),
    Del(Del),
}

/// The characters a wire item carries when it is a string.
pub open spec fn str_item(r: Resp) -> Option<Seq<char>> {
    match r {
        Resp::BulkString(s) => Some(s@),
        Resp::SimpleString(s) => Some(s@),
        _ => None,
    }
}

/// What `str::to_lowercase` turns a string into.
pub uninterp spec fn lower_of(s: Seq<char>) -> Seq<char>;

/// Relies on `str::to_lowercase`: the result depends on the characters
/// alone, and a string that is already lowercase — as the four command names
/// are — maps to itself.
#[verifier::external_body]
fn lowercase(s: &str) -> (r: String)
    ensures
        r@ == lower_of(s@),
        s@ == "get"@ ==> r@ == "get"@,
        s@ == "ping"@ ==> r@ == "ping"@,
        s@ == "set"@ ==> r@ == "set"@,
        s@ == "del"@ ==> r@ == "del"@,
{
    s.to_lowercase()
}

/// Whether two strings hold the same characters.
fn str_eq(a: &str, b: &str) -> (r: bool)
    ensures
        r == (a@ == b@),
{
    let al = a.unicode_len();
    let bl = b.unicode_len();
    if al != bl {
        return false;
    }
    let mut i: usize = 0;
    while i < al
        invariant
            i <= al,
            al == a@.len(),
            al == b@.len(),
            forall|t: int| 0 <= t < i ==> a@[t] == b@[t],
        decreases al - i,
    {
        if a.get_char(i) != b.get_char(i) {
            return false;
        }
        i = i + 1;
    }
    proof {
        assert(a@ =~= b@);
    }
    true
}

impl Cmd {
    /// Decodes one wire array into the command it names: a case-folded
    /// command name followed by that command's arguments, with nothing left
    /// over. A well-shaped request is owed its command: an array of the right
    /// length whose name folds to (or already is) one of the four command
    /// words yields that command. Anything else is refused.
    pub fn from_resp(resp: Resp) -> (r: Result<Cmd, Error>)
        ensures
            !(resp matches Resp::Array(_)) ==> (r matches Err(e) && e.skind() is StringError),
            r matches Ok(c) ==> resp matches Resp::Array(arr) && ({
                let a = arr@;
                &&& a.len() >= 1
                &&& str_item(a[0]) is Some
                &&& match c {
                    Cmd::Get(g) => lower_of(str_item(a[0])->Some_0) == "get"@ && a.len() == 2
                        && str_item(a[1]) == Some(g.skey()),
                    Cmd::Ping(_) => lower_of(str_item(a[0])->Some_0) == "ping"@ && a.len() == 1,
                    Cmd::Put(sc) => lower_of(str_item(a[0])->Some_0) == "set"@ && a.len() == 3
                        && str_item(a[1]) == Some(sc.skey()) && str_item(a[2]) == Some(sc.sval()),
                    Cmd::Del(d) => lower_of(str_item(a[0])->Some_0) == "del"@ && a.len() == 2
                        && str_item(a[1]) == Some(d.skey()),
                }
            }),
            resp matches Resp::Array(arr) ==> ({
                let a = arr@;
                let nm = str_item(a[0])->Some_0;
                &&& (a.len() == 2 && str_item(a[0]) is Some && (lower_of(nm) == "get"@ || nm
                    == "get"@) && str_item(a[1]) is Some ==> (r matches Ok(c) && c is Get))
                &&& (a.len() == 1 && str_item(a[0]) is Some && (lower_of(nm) == "ping"@ || nm
                    == "ping"@) ==> (r matches Ok(c) && c is Ping))
                &&& (a.len() == 3 && str_item(a[0]) is Some && (lower_of(nm) == "set"@ || nm
                    == "set"@) && str_item(a[1]) is Some && str_item(a[2]) is Some ==> (r
                    matches Ok(c) && c is Put))
                &&& (a.len() == 2 && str_item(a[0]) is Some && (lower_of(nm) == "del"@ || nm
                    == "del"@) && str_item(a[1]) is Some ==> (r matches Ok(c) && c is Del))
            }),
    {
        proof {
            reveal_strlit("get");
            reveal_strlit("ping");
            reveal_strlit("set");
            reveal_strlit("del");
            // the four command words are pairwise distinct
            assert("get"@ != "ping"@ && "set"@ != "ping"@ && "del"@ != "ping"@) by {
                assert("get"@.len() == 3 && "set"@.len() == 3 && "del"@.len() == 3 && "ping"@.len()
                    == 4);
            }
            assert("get"@ != "set"@ && "get"@ != "del"@ && "set"@ != "del"@) by {
                assert("get"@[0] == 'g' && "set"@[0] == 's' && "del"@[0] == 'd');
            }
        }
        let mut parser = Parser::new(resp)?;
        let command_name = parser.next_string()?;
        proof {
            // the name just read is the array's first item
            let its = parser.sitems();
            match its[0] {
                Resp::BulkString(s) => {
                    assert(str_item(its[0]) == Some(s@));
                },
                Resp::SimpleString(s) => {
                    assert(str_item(its[0]) == Some(s@));
                },
                _ => {},
            }
            assert(str_item(parser.sitems()[0]) == Some(command_name@));
        }
        let lower = lowercase(command_name.as_str());
        let cmd = if str_eq(lower.as_str(), "get") {
            Cmd::Get(Get::from_parser(&mut parser)?)
        } else if str_eq(lower.as_str(), "ping") {
            Cmd::Ping(Ping::from_parser(&mut parser)?)
        } else if str_eq(lower.as_str(), "set") {
            Cmd::Put(SetCmd::from_parser(&mut parser)?)
        } else if str_eq(lower.as_str(), "del") {
            Cmd::Del(Del::from_parser(&mut parser)?)
        } else {
            return Err(Error::new(ErrorKind::UnexpectedCommandType));
        };
        parser.check_finish()?;
        Ok(cmd)
    }
}

} // verus!
