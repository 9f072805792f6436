//! The wire codec for the request/response array encoding used by the
//! network front end: each item is one tagged line — a simple string, an
//! error, an integer, a length-prefixed bulk string, an array of items, or
//! the null marker — with every line closed by CR LF.

use crate::error::{Error, ErrorKind};
use crate::num::{all_digits, dec_digits, digits_val, scan_digits, take_digits, u64_to_dec};
use crate::record::string_from_utf8;
use vstd::prelude::*;
use vstd::string::StrSliceExecFns;
use vstd::utf8::{decode_utf8, encode_utf8, valid_utf8};

verus! {

broadcast use vstd::std_specs::vec::axiom_vec_index_decreases;

/// One wire item.
#[derive(Debug, PartialEq)]
pub enum Resp {
    SimpleString(String),
    Error(String),
    Integer(i64),
    BulkString(String),
    Array(Vec<Resp>),
    Null,
}

/// A wire item as a mathematical value.
pub enum RespV {
    SimpleString(Seq<char>),
    Error(Seq<char>),
    Integer(i64),
    BulkString(Seq<char>),
    Array(Seq<RespV>),
    Null,
}

/// The mathematical value of an item.
pub open spec fn rv_of(r: Resp) -> RespV
    decreases r,
{
    match r {
        Resp::SimpleString(s) => RespV::SimpleString(s@),
        Resp::Error(s) => RespV::Error(s@),
        Resp::Integer(i) => RespV::Integer(i),
        Resp::BulkString(s) => RespV::BulkString(s@),
        Resp::Array(vs) => RespV::Array(rv_elems(vs, 0)),
        Resp::Null => RespV::Null,
    }
}

/// The mathematical values of the items of `v` from position `i` on.
pub open spec fn rv_elems(v: Vec<Resp>, i: int) -> Seq<RespV>
    decreases v, v@.len() - i when 0 <= i
{
    if 0 <= i < v@.len() {
        seq![rv_of(v@[i])] + rv_elems(v, i + 1)
    } else {
        Seq::empty()
    }
}

/// The two bytes that close every line.
pub open spec fn crlf() -> Seq<u8> {
    seq![13u8, 10u8]
}

/// The decimal bytes of a signed number.
pub open spec fn dec_i64(v: int) -> Seq<u8> {
    if v < 0 {
        seq![45u8] + dec_digits((-v) as nat)
    } else {
        dec_digits(v as nat)
    }
}

/// The encoding of one wire item.
pub open spec fn resp_enc(r: RespV) -> Seq<u8>
    decreases r,
{
    match r {
        RespV::SimpleString(s) => seq![43u8] + encode_utf8(s) + crlf(),
        RespV::Error(s) => seq![45u8] + encode_utf8(s) + crlf(),
        RespV::Integer(i) => seq![58u8] + dec_i64(i as int) + crlf(),
        RespV::BulkString(s) => seq![36u8] + dec_digits(encode_utf8(s).len()) + crlf()
            + encode_utf8(s) + crlf(),
        RespV::Array(l) => seq![42u8] + dec_digits(l.len()) + crlf() + resp_enc_list(l),
        RespV::Null => seq![36u8, 45u8, 49u8, 13u8, 10u8],
    }
}

/// The encodings of a run of wire items, one after the other.
pub open spec fn resp_enc_list(l: Seq<RespV>) -> Seq<u8>
    decreases l, l.len(),
{
    if l.len() == 0 {
        Seq::empty()
    } else {
        resp_enc(l[0]) + resp_enc_list(l.drop_first())
    }
}

/// The encodings of the items of `v` from position `i` on.
pub open spec fn enc_items(items: Seq<Resp>, i: int) -> Seq<u8>
    decreases items.len() - i when 0 <= i
{
    if 0 <= i < items.len() {
        resp_enc(rv_of(items[i])) + enc_items(items, i + 1)
    } else {
        Seq::empty()
    }
}

/// The first line-feed byte at or after `pos`, or -1 when none is left.
pub open spec fn find_lf(s: Seq<u8>, pos: int) -> int
    decreases s.len() - pos when 0 <= pos <= s.len()
{
    if pos >= s.len() {
        -1
    } else if s[pos] == 10 {
        pos
    } else {
        find_lf(s, pos + 1)
    }
}

/// One line at `pos`: the bytes before the next CR LF pair and the position
/// just past it. `None` when no complete CR LF-closed line starts at `pos`.
pub open spec fn spec_line(s: Seq<u8>, pos: int) -> Option<(Seq<u8>, int)> {
    let q = find_lf(s, pos);
    if q >= pos + 1 && s[q - 1] == 13 {
        Some((s.subrange(pos, q - 1), q + 1))
    } else {
        None
    }
}

/// A signed decimal integer, as `str::parse` reads one from digits and an
/// optional leading minus sign.
pub open spec fn parse_int_bytes(l: Seq<u8>) -> Option<int> {
    if l.len() >= 2 && l[0] == 45 && all_digits(l.drop_first()) {
        Some(-(digits_val(l.drop_first()) as int))
    } else if l.len() >= 1 && all_digits(l) {
        Some(digits_val(l) as int)
    } else {
        None
    }
}

/// The same, held to the range of an `i64`.
pub open spec fn parse_i64(l: Seq<u8>) -> Option<i64> {
    match parse_int_bytes(l) {
        Option::Some(v) => if i64::MIN <= v <= i64::MAX {
            Some(v as i64)
        } else {
            None
        },
        Option::None => None,
    }
}

/// The five bytes that may open a wire item.
pub open spec fn known_mark(b: u8) -> bool {
    b == 43 || b == 45 || b == 58 || b == 36 || b == 42
}

/// The outcome of reading one wire item.
pub enum Parsed {
    /// An item and the position just past it.
    Item(RespV, int),
    /// The clean end of the stream.
    End,
    /// Malformed data.
    Fail,
}

/// Reads one wire item at `pos`.
pub open spec fn parse_one(s: Seq<u8>, pos: int) -> Parsed
    decreases s.len() - pos, 0int when 0 <= pos <= s.len()
{
    if pos >= s.len() {
        Parsed::End
    } else {
        let tag = s[pos];
        if tag == 43 || tag == 45 {
            match spec_line(s, pos + 1) {
                Option::Some((l, end)) => {
                    if valid_utf8(l) {
                        if tag == 43 {
                            Parsed::Item(RespV::SimpleString(decode_utf8(l)), end)
                        } else {
                            Parsed::Item(RespV::Error(decode_utf8(l)), end)
                        }
                    } else {
                        Parsed::Fail
                    }
                },
                Option::None => Parsed::Fail,
            }
        } else if tag == 58 {
            match spec_line(s, pos + 1) {
                Option::Some((l, end)) => match parse_i64(l) {
                    Option::Some(v) => Parsed::Item(RespV::Integer(v), end),
                    Option::None => Parsed::Fail,
                },
                Option::None => Parsed::Fail,
            }
        } else if tag == 36 {
            match spec_line(s, pos + 1) {
                Option::Some((l, end)) => match parse_i64(l) {
                    Option::Some(v) => {
                        if v < 0 {
                            Parsed::Item(RespV::Null, end)
                        } else if end + v + 2 <= s.len() && s[end + v] == 13 && s[end + v + 1]
                            == 10 {
                            let b = s.subrange(end, end + v);
                            if valid_utf8(b) {
                                Parsed::Item(RespV::BulkString(decode_utf8(b)), end + v + 2)
                            } else {
                                Parsed::Fail
                            }
                        } else {
                            Parsed::Fail
                        }
                    },
                    Option::None => Parsed::Fail,
                },
                Option::None => Parsed::Fail,
            }
        } else if tag == 42 {
            match spec_line(s, pos + 1) {
                Option::Some((l, end)) => match parse_i64(l) {
                    Option::Some(n) => {
                        if n < 0 || !(pos < end <= s.len()) {
                            Parsed::Fail
                        } else {
                            match parse_items(s, end, n as int) {
                                Option::Some((items, q)) => Parsed::Item(RespV::Array(items), q),
                                Option::None => Parsed::Fail,
                            }
                        }
                    },
                    Option::None => Parsed::Fail,
                },
                Option::None => Parsed::Fail,
            }
        } else {
            Parsed::Fail
        }
    }
}

/// Reads `n` wire items one after the other, starting at `pos`.
pub open spec fn parse_items(s: Seq<u8>, pos: int, n: int) -> Option<(Seq<RespV>, int)>
    decreases s.len() - pos, 1int + n when 0 <= pos <= s.len() && 0 <= n
{
    if n == 0 {
        Some((Seq::empty(), pos))
    } else {
        match parse_one(s, pos) {
            Parsed::Item(rv, end) => {
                if pos < end <= s.len() {
                    match parse_items(s, end, n - 1) {
                        Option::Some((l, q)) => Some((seq![rv] + l, q)),
                        Option::None => None,
                    }
                } else {
                    None
                }
            },
            Parsed::End => None,
            Parsed::Fail => None,
        }
    }
}

/// Reads wire items until the stream's clean end. `None` marks malformed or
/// truncated data anywhere in the stream.
pub open spec fn parse_all(s: Seq<u8>, pos: int) -> Option<Seq<RespV>>
    decreases s.len() - pos, 1int when 0 <= pos <= s.len()
{
    match parse_one(s, pos) {
        Parsed::End => Some(Seq::empty()),
        Parsed::Fail => None,
        Parsed::Item(rv, end) => {
            if pos < end <= s.len() {
                match parse_all(s, end) {
                    Option::Some(l) => Some(seq![rv] + l),
                    Option::None => None,
                }
            } else {
                None
            }
        },
    }
}

/// `rv_elems` has one value for each item from position `i` on.
proof fn lemma_rv_elems_len(v: Vec<Resp>, i: int)
    requires
        0 <= i <= v@.len(),
    ensures
        rv_elems(v, i).len() == v@.len() - i,
    decreases v@.len() - i,
{
    if i < v@.len() {
        lemma_rv_elems_len(v, i + 1);
    }
}

/// Pointwise equal element values make `rv_elems` a suffix of the list.
proof fn lemma_rv_elems_pointwise(v: Vec<Resp>, l: Seq<RespV>, i: int)
    requires
        0 <= i <= v@.len(),
        l.len() == v@.len(),
        forall|t: int| 0 <= t < v@.len() ==> rv_of(#[trigger] v@[t]) == l[t],
    ensures
        rv_elems(v, i) == l.skip(i),
    decreases v@.len() - i,
{
    if i == v@.len() {
        assert(l.skip(i) =~= Seq::<RespV>::empty());
    } else {
        lemma_rv_elems_pointwise(v, l, i + 1);
        assert(l.skip(i) =~= seq![l[i]] + l.skip(i + 1));
    }
}

/// The decimal bytes of a signed 64-bit number.
fn i64_to_dec(n: i64) -> (r: Vec<u8>)
    ensures
        r@ == dec_i64(n as int),
{
    if n >= 0 {
        u64_to_dec(n as u64)
    } else {
        let m: u64 = (-(n as i128)) as u64;
        let mut v: Vec<u8> = Vec::new();
        v.push(45);
        let mut d = u64_to_dec(m);
        v.append(&mut d);
        proof {
            assert(v@ =~= dec_i64(n as int));
        }
        v
    }
}

/// Reads the line starting at `pos`.
fn read_line(data: &Vec<u8>, pos: usize) -> (r: Option<(Vec<u8>, usize)>)
    requires
        pos <= data.len(),
    ensures
        match spec_line(data@, pos as int) {
            Option::Some((l, end)) => {
                &&& r matches Some(p)
                &&& r->Some_0.0@ == l
                &&& r->Some_0.1 == end
                &&& pos < r->Some_0.1 <= data.len()
            },
            Option::None => r is None,
        },
{
    let ghost s = data@;
    let mut i = pos;
    while i < data.len() && data[i] != 10
        invariant
            pos <= i <= data.len(),
            s == data@,
            find_lf(s, pos as int) == find_lf(s, i as int),
        decreases data.len() - i,
    {
        proof {
            assert(find_lf(s, i as int) == find_lf(s, i + 1 as int));
        }
        i = i + 1;
    }
    if i >= data.len() {
        proof {
            assert(find_lf(s, i as int) == -1);
        }
        return None;
    }
    proof {
        assert(find_lf(s, i as int) == i as int);
    }
    if i < pos + 1 {
        return None;
    }
    if data[i - 1] != 13 {
        return None;
    }
    let mut l: Vec<u8> = Vec::new();
    let mut j = pos;
    while j < i - 1
        invariant
            pos <= j <= i - 1,
            1 <= i < data.len(),
            s == data@,
            l@ == s.subrange(pos as int, j as int),
        decreases i - j,
    {
        l.push(data[j]);
        proof {
            assert(l@ =~= s.subrange(pos as int, j + 1 as int));
        }
        j = j + 1;
    }
    Some((l, i + 1))
}

/// Reads a signed decimal integer out of one whole line.
fn parse_i64_exec(l: &Vec<u8>) -> (r: Option<i64>)
    ensures
        r == parse_i64(l@),
{
    let ghost s = l@;
    if l.len() == 0 {
        return None;
    }
    let neg = l[0] == 45;
    let start: usize = if neg {
        1
    } else {
        0
    };
    let (after, vopt) = scan_digits(l, start);
    proof {
        crate::num::lemma_take_digits_props(s, start as int);
    }
    if after != l.len() || after == start {
        proof {
            let body = if neg {
                s.drop_first()
            } else {
                s
            };
            if body.len() >= 1 && all_digits(body) && (neg ==> s.len() >= 2) {
                assert(s.subrange(start as int, s.len() as int) =~= body);
                crate::num::lemma_take_digits_window(s, start as int, body);
            }
        }
        return None;
    }
    proof {
        assert(take_digits(s, start as int) =~= s.subrange(start as int, s.len() as int));
        if neg {
            assert(s.subrange(1, s.len() as int) =~= s.drop_first());
        } else {
            assert(s.subrange(0, s.len() as int) =~= s);
        }
    }
    let v = match vopt {
        Some(v) => v,
        None => {
            return None;
        },
    };
    if neg {
        if v > 9223372036854775808u64 {
            return None;
        }
        Some((-(v as i128)) as i64)
    } else {
        if v > 9223372036854775807u64 {
            return None;
        }
        Some(v as i64)
    }
}

/// Writes one wire item onto the end of `data`.
#[verifier::loop_isolation(false)]
fn serialize_one(item: &Resp, data: &mut Vec<u8>) -> (r: Result<(), Error>)
    ensures
        r is Ok,
        final(data)@ == old(data)@ + resp_enc(rv_of(*item)),
    decreases *item,
{
    match item {
        Resp::SimpleString(s) => {
            data.push(43);
            let mut b = s.as_str().as_bytes_vec();
            data.append(&mut b);
            data.push(13);
            data.push(10);
            proof {
                assert(final(data)@ =~= old(data)@ + resp_enc(rv_of(*item)));
            }
        },
        Resp::Error(s) => {
            data.push(45);
            let mut b = s.as_str().as_bytes_vec();
            data.append(&mut b);
            data.push(13);
            data.push(10);
            proof {
                assert(final(data)@ =~= old(data)@ + resp_enc(rv_of(*item)));
            }
        },
        Resp::Integer(i) => {
            data.push(58);
            let mut d = i64_to_dec(*i);
            data.append(&mut d);
            data.push(13);
            data.push(10);
            proof {
                assert(final(data)@ =~= old(data)@ + resp_enc(rv_of(*item)));
            }
        },
        Resp::BulkString(s) => {
            data.push(36);
            let b = s.as_str().as_bytes_vec();
            let mut d = u64_to_dec(b.len() as u64);
            data.append(&mut d);
            data.push(13);
            data.push(10);
            let mut bb = b;
            data.append(&mut bb);
            data.push(13);
            data.push(10);
            proof {
                assert(final(data)@ =~= old(data)@ + resp_enc(rv_of(*item)));
            }
        },
        Resp::Array(vs) => {
            data.push(42);
            let mut d = u64_to_dec(vs.len() as u64);
            data.append(&mut d);
            data.push(13);
            data.push(10);
            let ghost head = data@;
            let ghost l = rv_elems(*vs, 0);
            let mut j: usize = 0;
            while j < vs.len()
                invariant
                    j <= vs@.len(),
                    l == rv_elems(*vs, 0),
                    data@ + resp_enc_list(rv_elems(*vs, j as int)) == head + resp_enc_list(l),
                decreases vs@.len() - j,
            {
                let ghost pre = data@;
                let res = serialize_one(&vs[j], data);
                proof {
                    let tail = rv_elems(*vs, j as int);
                    assert(tail[0] == rv_of(vs@[j as int]));
                    assert(tail.drop_first() =~= rv_elems(*vs, j + 1 as int));
                    assert(resp_enc_list(tail) == resp_enc(tail[0]) + resp_enc_list(
                        rv_elems(*vs, j + 1 as int),
                    ));
                    assert(data@ + resp_enc_list(rv_elems(*vs, j + 1 as int)) =~= pre
                        + resp_enc_list(tail));
                }
                j = j + 1;
            }
            proof {
                lemma_rv_elems_len(*vs, 0);
                assert(rv_elems(*vs, vs@.len() as int) =~= Seq::<RespV>::empty());
                assert(resp_enc_list(Seq::<RespV>::empty()) =~= Seq::<u8>::empty());
                assert(data@ + Seq::<u8>::empty() =~= data@);
                assert(head =~= old(data)@ + seq![42u8] + dec_digits(vs@.len() as nat) + crlf());
                assert(final(data)@ =~= old(data)@ + resp_enc(rv_of(*item)));
            }
        },
        Resp::Null => {
            data.push(36);
            data.push(45);
            data.push(49);
            data.push(13);
            data.push(10);
            proof {
                assert(final(data)@ =~= old(data)@ + resp_enc(rv_of(*item)));
            }
        },
    }
    Ok(())
}

/// Writes a run of wire items onto the end of `data`, one after the other.
pub fn serialize(input: Vec<Resp>, data: &mut Vec<u8>) -> (r: Result<(), Error>)
    ensures
        r is Ok,
        final(data)@ == old(data)@ + enc_items(input@, 0),
{
    let mut i: usize = 0;
    while i < input.len()
        invariant
            i <= input@.len(),
            data@ + enc_items(input@, i as int) == old(data)@ + enc_items(input@, 0),
        decreases input@.len() - i,
    {
        let ghost pre = data@;
        let res = serialize_one(&input[i], data);
        proof {
            assert(data@ + enc_items(input@, i + 1 as int) =~= pre + enc_items(
                input@,
                i as int,
            ));
        }
        i = i + 1;
    }
    proof {
        assert(enc_items(input@, input@.len() as int) =~= Seq::<u8>::empty());
        assert(data@ + Seq::<u8>::empty() =~= data@);
    }
    Ok(())
}

/// Reads one wire item of `data` at `pos`.
#[verifier::rlimit(100)]
#[verifier::loop_isolation(false)]
fn unserialize_one(data: &Vec<u8>, pos: usize) -> (r: Result<(Resp, usize), Error>)
    requires
        pos <= data.len(),
    ensures
        match parse_one(data@, pos as int) {
            Parsed::Item(rv, end) => {
                &&& r matches Ok(p)
                &&& rv_of(r->Ok_0.0) == rv
                &&& r->Ok_0.1 == end
                &&& pos < r->Ok_0.1 <= data.len()
            },
            Parsed::End => r matches Err(e) && e.skind() is EOS,
            Parsed::Fail => r matches Err(e) && !(e.skind() is EOS),
        },
        pos < data@.len() && !known_mark(data@[pos as int]) ==> (r matches Err(e) && e.skind()
            == ErrorKind::UnexpectedRespMark(data@[pos as int])),
    decreases data.len() - pos,
{
    let ghost s = data@;
    if pos >= data.len() {
        return Err(Error::new(ErrorKind::EOS));
    }
    let tag = data[pos];
    if tag == 43 || tag == 45 {
        let (l, end) = match read_line(data, pos + 1) {
            Some(p) => p,
            None => {
                return Err(Error::new(ErrorKind::Protocol(String::from_str(
                    "unterminated line",
                ))));
            },
        };
        match string_from_utf8(l) {
            Some(st) => {
                if tag == 43 {
                    Ok((Resp::SimpleString(st), end))
                } else {
                    Ok((Resp::Error(st), end))
                }
            },
            None => Err(Error::new(ErrorKind::Protocol(String::from_str("not utf-8")))),
        }
    } else if tag == 58 {
        let (l, end) = match read_line(data, pos + 1) {
            Some(p) => p,
            None => {
                return Err(Error::new(ErrorKind::Protocol(String::from_str(
                    "unterminated line",
                ))));
            },
        };
        match parse_i64_exec(&l) {
            Some(v) => Ok((Resp::Integer(v), end)),
            None => Err(Error::new(ErrorKind::Protocol(String::from_str("not an integer")))),
        }
    } else if tag == 36 {
        let (l, end) = match read_line(data, pos + 1) {
            Some(p) => p,
            None => {
                return Err(Error::new(ErrorKind::Protocol(String::from_str(
                    "unterminated line",
                ))));
            },
        };
        let v = match parse_i64_exec(&l) {
            Some(v) => v,
            None => {
                return Err(Error::new(ErrorKind::Protocol(String::from_str(
                    "not an integer",
                ))));
            },
        };
        if v < 0 {
            return Ok((Resp::Null, end));
        }
        let n = v as u64;
        if n + 2 > (data.len() - end) as u64 {
            return Err(Error::new(ErrorKind::Protocol(String::from_str(
                "truncated bulk string",
            ))));
        }
        let nu = n as usize;
        if data[end + nu] != 13 || data[end + nu + 1] != 10 {
            return Err(Error::new(ErrorKind::Protocol(String::from_str(
                "unterminated bulk string",
            ))));
        }
        let mut b: Vec<u8> = Vec::new();
        let mut j = end;
        while j < end + nu
            invariant
                end <= j <= end + nu,
                end + nu <= data.len(),
                s == data@,
                b@ == s.subrange(end as int, j as int),
            decreases end + nu - j,
        {
            b.push(data[j]);
            proof {
                assert(b@ =~= s.subrange(end as int, j + 1 as int));
            }
            j = j + 1;
        }
        match string_from_utf8(b) {
            Some(st) => Ok((Resp::BulkString(st), end + nu + 2)),
            None => Err(Error::new(ErrorKind::Protocol(String::from_str("not utf-8")))),
        }
    } else if tag == 42 {
        let (l, end) = match read_line(data, pos + 1) {
            Some(p) => p,
            None => {
                return Err(Error::new(ErrorKind::Protocol(String::from_str(
                    "unterminated line",
                ))));
            },
        };
        let v = match parse_i64_exec(&l) {
            Some(v) => v,
            None => {
                return Err(Error::new(ErrorKind::Protocol(String::from_str(
                    "not an integer",
                ))));
            },
        };
        if v < 0 {
            return Err(Error::new(ErrorKind::Protocol(String::from_str(
                "negative array length",
            ))));
        }
        let n = v as u64;
        let mut items: Vec<Resp> = Vec::new();
        let ghost mut lacc: Seq<RespV> = Seq::<RespV>::empty();
        let mut cur = end;
        let mut made: u64 = 0;
        while made < n
            invariant
                pos < cur <= data.len(),
                made <= n,
                items@.len() == made as int,
                lacc.len() == made as int,
                forall|t: int| 0 <= t < made ==> rv_of(#[trigger] items@[t]) == lacc[t],
                match parse_items(s, cur as int, (n - made) as int) {
                    Option::Some(p) => parse_items(s, end as int, n as int) == Some(
                        (lacc + p.0, p.1),
                    ),
                    Option::None => parse_items(s, end as int, n as int) is None,
                },
            decreases n - made,
        {
            let (item, e2) = match unserialize_one(data, cur) {
                Ok(p) => p,
                Err(err) => {
                    if matches!(err.kind(), ErrorKind::EOS) {
                        return Err(Error::new(ErrorKind::Protocol(String::from_str(
                            "truncated array",
                        ))));
                    }
                    return Err(err);
                },
            };
            proof {
                let rv = rv_of(item);
                let m = (n - made) as int;
                assert(parse_one(s, cur as int) == Parsed::Item(rv, e2 as int));
                if parse_items(s, e2 as int, m - 1) is Some {
                    let p2 = parse_items(s, e2 as int, m - 1)->Some_0;
                    assert(parse_items(s, cur as int, m) == Some((seq![rv] + p2.0, p2.1)));
                    assert(lacc + (seq![rv] + p2.0) =~= lacc.push(rv) + p2.0);
                } else {
                    assert(parse_items(s, cur as int, m) is None);
                }
                lacc = lacc.push(rv);
            }
            items.push(item);
            cur = e2;
            made = made + 1;
        }
        proof {
            assert(parse_items(s, cur as int, 0) == Some((Seq::<RespV>::empty(), cur as int)));
            assert(lacc + Seq::<RespV>::empty() =~= lacc);
            lemma_rv_elems_pointwise(items, lacc, 0);
            assert(lacc.skip(0) =~= lacc);
        }
        Ok((Resp::Array(items), cur))
    } else {
        Err(Error::new(ErrorKind::UnexpectedRespMark(tag)))
    }
}

/// Reads every wire item of `data` until its clean end.
#[verifier::loop_isolation(false)]
pub fn unserialize(data: &Vec<u8>) -> (r: Result<Vec<Resp>, Error>)
    ensures
        match parse_all(data@, 0) {
            Option::Some(l) => {
                &&& r matches Ok(v)
                &&& r->Ok_0@.len() == l.len()
                &&& forall|i: int| 0 <= i < l.len() ==> rv_of(#[trigger] r->Ok_0@[i]) == l[i]
            },
            Option::None => r is Err,
        },
{
    let ghost s = data@;
    let mut out: Vec<Resp> = Vec::new();
    let ghost mut lacc: Seq<RespV> = Seq::<RespV>::empty();
    let mut cur: usize = 0;
    loop
        invariant
            cur <= data.len(),
            out@.len() == lacc.len(),
            forall|t: int| 0 <= t < lacc.len() ==> rv_of(#[trigger] out@[t]) == lacc[t],
            match parse_all(s, cur as int) {
                Option::Some(l) => parse_all(s, 0) == Some(lacc + l),
                Option::None => parse_all(s, 0) is None,
            },
        decreases data.len() - cur + 1,
    {
        let (item, e2) = match unserialize_one(data, cur) {
            Ok(p) => p,
            Err(err) => {
                if matches!(err.kind(), ErrorKind::EOS) {
                    proof {
                        assert(parse_all(s, cur as int) == Some(Seq::<RespV>::empty()));
                        assert(lacc + Seq::<RespV>::empty() =~= lacc);
                    }
                    return Ok(out);
                }
                return Err(err);
            },
        };
        proof {
            let rv = rv_of(item);
            assert(parse_one(s, cur as int) == Parsed::Item(rv, e2 as int));
            if parse_all(s, e2 as int) is Some {
                let l2 = parse_all(s, e2 as int)->Some_0;
                assert(parse_all(s, cur as int) == Some(seq![rv] + l2));
                assert(lacc + (seq![rv] + l2) =~= lacc.push(rv) + l2);
            }
            lacc = lacc.push(rv);
        }
        out.push(item);
        cur = e2;
    }
}

} // verus!
