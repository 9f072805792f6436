//! Reading a typed command line. A line that starts at the first column is
//! parsed strictly: single spaces between tokens and no trailing space. One
//! that starts with a space is tokenized leniently: runs of spaces act as one
//! separator and spaces at either edge are ignored.

use vstd::prelude::*;
use vstd::string::StrSliceExecFns;

verus! {

/// A command name.
#[derive(Debug, PartialEq)]
pub enum Cmd {
    Get,
    Put,
    Del,
    Unimplement,
}

/// The tokens of `s` split on single spaces, empty tokens kept, as
/// `str::split(' ')` yields them.
pub open spec fn split_sp(s: Seq<char>) -> Seq<Seq<char>>
    decreases s.len(),
{
    if s.len() == 0 {
        seq![Seq::empty()]
    } else if s.last() == ' ' {
        split_sp(s.drop_last()).push(Seq::empty())
    } else {
        let t = split_sp(s.drop_last());
        t.update(t.len() - 1, t.last().push(s.last()))
    }
}

/// The tokens with the empty ones dropped.
pub open spec fn nonempty(ts: Seq<Seq<char>>) -> Seq<Seq<char>>
    decreases ts.len(),
{
    if ts.len() == 0 {
        Seq::empty()
    } else {
        let r = nonempty(ts.drop_last());
        if ts.last().len() > 0 {
            r.push(ts.last())
        } else {
            r
        }
    }
}

/// The command a token names.
pub open spec fn cmd_of(t: Seq<char>) -> Cmd {
    if t == seq!['g', 'e', 't'] {
        Cmd::Get
    } else if t == seq!['s', 'e', 't'] {
        Cmd::Put
    } else if t == seq!['d', 'e', 'l'] {
        Cmd::Del
    } else {
        Cmd::Unimplement
    }
}

/// What `Cmder::new` reads from a line, when it reads anything.
pub open spec fn cmder_spec(s: Seq<char>) -> Option<(Cmd, Seq<Seq<char>>)> {
    if s.len() > 0 && s[0] != ' ' {
        let ts = split_sp(s);
        if (forall|i: int| 0 <= i < ts.len() ==> (#[trigger] ts[i]).len() > 0) && cmd_of(ts[0])
            != Cmd::Unimplement {
            Some((cmd_of(ts[0]), ts.drop_first()))
        } else {
            None
        }
    } else {
        let ts = nonempty(split_sp(s));
        if ts.len() > 0 && cmd_of(ts[0]) != Cmd::Unimplement {
            Some((cmd_of(ts[0]), ts.drop_first()))
        } else {
            None
        }
    }
}

/// One read command line: the command and its arguments.
pub struct Cmder {
    pub cmd: Cmd,
    pub args: Vec<String>,
}

/// The characters of `s`.
fn str_chars(s: &str) -> (r: Vec<char>)
    ensures
        r@ == s@,
{
    let n = s.unicode_len();
    let mut v: Vec<char> = Vec::new();
    let mut i: usize = 0;
    while i < n
        invariant
            i <= n,
            n == s@.len(),
            v@ == s@.subrange(0, i as int),
        decreases n - i,
    {
        v.push(s.get_char(i));
        proof {
            assert(v@ =~= s@.subrange(0, i + 1 as int));
        }
        i = i + 1;
    }
    proof {
        assert(v@ =~= s@);
    }
    v
}

/// Relies on `String: FromIterator<char>`: collecting characters yields the
/// string holding exactly them.
#[verifier::external_body]
fn string_from_chars(v: &Vec<char>) -> (r: String)
    ensures
        r@ == v@,
{
    v.iter().collect()
}

/// The command a token names.
fn cmd_of_exec(t: &Vec<char>) -> (c: Cmd)
    ensures
        c == cmd_of(t@),
{
    if t.len() == 3 && t[0] == 'g' && t[1] == 'e' && t[2] == 't' {
        proof {
            assert(t@ =~= seq!['g', 'e', 't']);
        }
        Cmd::Get
    } else if t.len() == 3 && t[0] == 's' && t[1] == 'e' && t[2] == 't' {
        proof {
            assert(t@ =~= seq!['s', 'e', 't']);
        }
        Cmd::Put
    } else if t.len() == 3 && t[0] == 'd' && t[1] == 'e' && t[2] == 'l' {
        proof {
            assert(t@ =~= seq!['d', 'e', 'l']);
        }
        Cmd::Del
    } else {
        proof {
            if t@ == seq!['g', 'e', 't'] || t@ == seq!['s', 'e', 't'] || t@ == seq![
                'd',
                'e',
                'l',
            ] {
                assert(t@.len() == 3);
                assert(false);
            }
        }
        Cmd::Unimplement
    }
}

impl Cmder {
    /// Reads one command line, or nothing when the line names no command or
    /// breaks the spacing rules above.
    #[verifier::loop_isolation(false)]
    pub fn new(s: &str) -> (r: Option<Cmder>)
        ensures
            match cmder_spec(s@) {
                Option::Some(p) => {
                    &&& r matches Some(cm)
                    &&& r->Some_0.cmd == p.0
                    &&& r->Some_0.args@.len() == p.1.len()
                    &&& forall|i: int|
                        0 <= i < p.1.len() ==> (#[trigger] r->Some_0.args@[i])@ == p.1[i]
                },
                Option::None => r is None,
            },
    {
        let chars = str_chars(s);
        // split on single spaces, keeping empty tokens
        let mut done: Vec<Vec<char>> = Vec::new();
        let mut cur: Vec<char> = Vec::new();
        let ghost cs = chars@;
        let mut i: usize = 0;
        proof {
            assert(cs.subrange(0, 0) =~= Seq::<char>::empty());
            assert(split_sp(Seq::<char>::empty()) =~= seq![Seq::<char>::empty()]);
        }
        while i < chars.len()
            invariant
                i <= cs.len(),
                split_sp(cs.subrange(0, i as int)) == Seq::new(
                    done@.len(),
                    |t: int| done@[t]@,
                ).push(cur@),
            decreases cs.len() - i,
        {
            let ghost pre = cs.subrange(0, i as int);
            let ghost now = cs.subrange(0, i + 1 as int);
            proof {
                assert(now.drop_last() =~= pre);
                assert(now.last() == cs[i as int]);
            }
            if chars[i] == ' ' {
                let ghost prev_done = Seq::new(done@.len(), |t: int| done@[t]@);
                let ghost prev_cur = cur@;
                done.push(cur);
                cur = Vec::new();
                proof {
                    assert(split_sp(pre) == prev_done.push(prev_cur));
                    assert(split_sp(now) == split_sp(pre).push(Seq::<char>::empty()));
                    assert(Seq::new(done@.len(), |t: int| done@[t]@) =~= prev_done.push(prev_cur));
                    assert(split_sp(now) =~= Seq::new(done@.len(), |t: int| done@[t]@).push(
                        cur@,
                    ));
                }
            } else {
                let c = chars[i];
                let ghost prev_cur = cur@;
                cur.push(c);
                proof {
                    let old_toks = Seq::new(done@.len(), |t: int| done@[t]@).push(prev_cur);
                    assert(split_sp(pre) == old_toks);
                    assert(old_toks.last() == prev_cur);
                    assert(split_sp(now) == old_toks.update(
                        old_toks.len() - 1,
                        old_toks.last().push(cs[i as int]),
                    ));
                    assert(prev_cur.push(cs[i as int]) == cur@);
                    assert(split_sp(now) =~= Seq::new(done@.len(), |t: int| done@[t]@).push(
                        cur@,
                    ));
                }
            }
            i = i + 1;
        }
        done.push(cur);
        let tokens = done;
        let ghost ts = split_sp(cs);
        proof {
            assert(cs.subrange(0, cs.len() as int) =~= cs);
            assert(ts =~= Seq::new(tokens@.len(), |t: int| tokens@[t]@));
        }
        if chars.len() > 0 && chars[0] != ' ' {
            // strict: every token must be nonempty, the first names a command
            let mut t: usize = 0;
            while t < tokens.len()
                invariant
                    t <= tokens@.len(),
                    forall|u: int| 0 <= u < t ==> (#[trigger] tokens@[u])@.len() > 0,
                decreases tokens@.len() - t,
            {
                if tokens[t].len() == 0 {
                    proof {
                        assert(ts[t as int].len() == 0);
                    }
                    return None;
                }
                t = t + 1;
            }
            let cmd = cmd_of_exec(&tokens[0]);
            if matches!(cmd, Cmd::Unimplement) {
                return None;
            }
            let mut args: Vec<String> = Vec::new();
            let mut u: usize = 1;
            while u < tokens.len()
                invariant
                    1 <= u <= tokens@.len(),
                    args@.len() == u - 1,
                    forall|w: int| 0 <= w < u - 1 ==> (#[trigger] args@[w])@ == ts[w + 1],
                decreases tokens@.len() - u,
            {
                args.push(string_from_chars(&tokens[u]));
                u = u + 1;
            }
            proof {
                assert(forall|w: int|
                    0 <= w < ts.drop_first().len() ==> #[trigger] ts.drop_first()[w] == ts[w
                        + 1]);
            }
            Some(Cmder { cmd, args })
        } else {
            // lenient: drop the empty tokens
            let mut kept: Vec<Vec<char>> = Vec::new();
            let mut t: usize = 0;
            proof {
                assert(ts.subrange(0, 0) =~= Seq::<Seq<char>>::empty());
                assert(nonempty(Seq::<Seq<char>>::empty()) =~= Seq::<Seq<char>>::empty());
            }
            while t < tokens.len()
                invariant
                    t <= tokens@.len(),
                    nonempty(ts.subrange(0, t as int)) == Seq::new(
                        kept@.len(),
                        |w: int| kept@[w]@,
                    ),
                decreases tokens@.len() - t,
            {
                let ghost pre = ts.subrange(0, t as int);
                let ghost now = ts.subrange(0, t + 1 as int);
                proof {
                    assert(now.drop_last() =~= pre);
                    assert(now.last() == ts[t as int]);
                }
                if tokens[t].len() > 0 {
                    let tk = string_from_chars(&tokens[t]);
                    let tkc = str_chars(tk.as_str());
                    kept.push(tkc);
                    proof {
                        assert(nonempty(now) =~= Seq::new(kept@.len(), |w: int| kept@[w]@));
                    }
                } else {
                    proof {
                        assert(nonempty(now) =~= Seq::new(kept@.len(), |w: int| kept@[w]@));
                    }
                }
                t = t + 1;
            }
            let ghost nts = nonempty(ts);
            proof {
                assert(ts.subrange(0, ts.len() as int) =~= ts);
                assert(nts =~= Seq::new(kept@.len(), |w: int| kept@[w]@));
            }
            if kept.len() == 0 {
                return None;
            }
            let cmd = cmd_of_exec(&kept[0]);
            if matches!(cmd, Cmd::Unimplement) {
                return None;
            }
            let mut args: Vec<String> = Vec::new();
            let mut u: usize = 1;
            while u < kept.len()
                invariant
                    1 <= u <= kept@.len(),
                    args@.len() == u - 1,
                    forall|w: int| 0 <= w < u - 1 ==> (#[trigger] args@[w])@ == nts[w + 1],
                decreases kept@.len() - u,
            {
                args.push(string_from_chars(&kept[u]));
                u = u + 1;
            }
            proof {
                assert(forall|w: int|
                    0 <= w < nts.drop_first().len() ==> #[trigger] nts.drop_first()[w] == nts[w
                        + 1]);
            }
            Some(Cmder { cmd, args })
        }
    }
}

} // verus!
