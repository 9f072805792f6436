//! The durable record format. A segment file is a plain concatenation of
//! self-delimiting textual records: a `Set` record is the byte `S` followed
//! by the key and the value, a `Remove` record the byte `R` followed by the
//! key; each string is written as the canonical decimal length of its UTF-8
//! bytes, a comma, and the bytes themselves. Decoding a record therefore
//! recovers both the command and the exact number of bytes it occupies.

use crate::num::{
    all_digits, canonical_digits, dec_digits, digits_val, is_digit, lemma_dec_digits,
    lemma_digits_canonical, lemma_take_digits_props, lemma_take_digits_window, scan_digits,
    take_digits, u64_to_dec,
};
use vstd::prelude::*;
use vstd::utf8::{decode_utf8, encode_utf8, valid_utf8};

verus! {

/// A single durable command, the unit of change appended to a segment.
#[derive(Debug)]
pub enum Command {
    Put { key: String, value: String },
    Remove { key: String },
}

/// The mathematical form of a command: key and value as character sequences.
pub enum Rec {
    Put { key: Seq<char>, value: Seq<char> },
    Remove { key: Seq<char> },
}

impl View for Command {
    type V = Rec;

    open spec fn view(&self) -> Rec {
        match self {
            Command::Put { key, value } => Rec::Put { key: key@, value: value@ },
            Command::Remove { key } => Rec::Remove { key: key@ },
        }
    }
}

impl Command {
    /// The constructor for a `Set` command.
    pub fn set(key: String, value: String) -> (r: Command)
        ensures
            r@ == (Rec::Put { key: key@, value: value@ }),
    {
        Command::Put { key, value }
    }

    /// The constructor for a `Remove` command.
    pub fn remove(key: String) -> (r: Command)
        ensures
            r@ == (Rec::Remove { key: key@ }),
    {
        Command::Remove { key }
    }
}

/// The encoding of one length-prefixed string field.
pub open spec fn enc_str(s: Seq<char>) -> Seq<u8> {
    let b = encode_utf8(s);
    dec_digits(b.len()) + seq![44u8] + b
}

/// The encoding of one record.
pub open spec fn enc(r: Rec) -> Seq<u8> {
    match r {
        Rec::Put { key, value } => seq![83u8] + enc_str(key) + enc_str(value),
        Rec::Remove { key } => seq![82u8] + enc_str(key),
    }
}

/// Reads a canonical decimal length followed by a comma at `pos`, giving the
/// length and the position just past the comma.
pub open spec fn scan_len_at(s: Seq<u8>, pos: int) -> Option<(nat, int)> {
    let d = take_digits(s, pos);
    if !canonical_digits(d) || digits_val(d) > u64::MAX {
        None
    } else {
        let after = pos + d.len();
        if after < s.len() && s[after] == 44 {
            Some((digits_val(d), after + 1))
        } else {
            None
        }
    }
}

/// Reads one length-prefixed string field at `pos`, giving the decoded
/// characters and the position just past the field.
pub open spec fn read_str_at(s: Seq<u8>, pos: int) -> Option<(Seq<char>, int)> {
    match scan_len_at(s, pos) {
        Option::None => None,
        Option::Some((n, p)) => {
            if p + n <= s.len() {
                let b = s.subrange(p, p + n as int);
                if valid_utf8(b) {
                    Some((decode_utf8(b), p + n))
                } else {
                    None
                }
            } else {
                None
            }
        },
    }
}

/// Decodes one record at `pos`, giving the record and the position just past
/// its last byte. `None` marks a malformed or truncated record.
pub open spec fn dec_at(s: Seq<u8>, pos: int) -> Option<(Rec, int)> {
    if 0 <= pos < s.len() {
        if s[pos] == 83 {
            match read_str_at(s, pos + 1) {
                Option::None => None,
                Option::Some((k, p)) => match read_str_at(s, p) {
                    Option::None => None,
                    Option::Some((v, q)) => Some((Rec::Put { key: k, value: v }, q)),
                },
            }
        } else if s[pos] == 82 {
            match read_str_at(s, pos + 1) {
                Option::None => None,
                Option::Some((k, p)) => Some((Rec::Remove { key: k }, p)),
            }
        } else {
            None
        }
    } else {
        None
    }
}

/// A slice of a window of `s` is the matching slice of `s` itself.
pub proof fn lemma_window_slice(s: Seq<u8>, pos: int, w: Seq<u8>, a: int, b: int)
    requires
        0 <= pos,
        pos + w.len() <= s.len(),
        s.subrange(pos, pos + w.len()) == w,
        0 <= a <= b <= w.len(),
    ensures
        s.subrange(pos + a, pos + b) == w.subrange(a, b),
{
    assert forall|i: int| 0 <= i < b - a implies s.subrange(pos + a, pos + b)[i] == w.subrange(
        a,
        b,
    )[i] by {
        assert(w[a + i] == s.subrange(pos, pos + w.len() as int)[a + i]);
    }
    assert(s.subrange(pos + a, pos + b) =~= w.subrange(a, b));
}

/// A decoded string field occupies exactly the bytes of its own encoding.
pub proof fn lemma_read_str_sound(s: Seq<u8>, pos: int)
    requires
        0 <= pos <= s.len(),
        read_str_at(s, pos) is Some,
    ensures
        ({
            let (t, end) = read_str_at(s, pos)->Some_0;
            &&& pos < end <= s.len()
            &&& s.subrange(pos, end) == enc_str(t)
        }),
{
    let d = take_digits(s, pos);
    lemma_take_digits_props(s, pos);
    let n = digits_val(d) as int;
    let p = pos + d.len() + 1;
    let b = s.subrange(p, p + n);
    let t = decode_utf8(b);
    vstd::utf8::decode_utf8_encode_utf8(b);
    lemma_digits_canonical(d);
    assert(encode_utf8(t) == b);
    assert(dec_digits(b.len()) == d);
    let w = s.subrange(pos, p + n);
    assert(w =~= d + seq![44u8] + b);
    assert(read_str_at(s, pos)->Some_0 == (t, p + n));
}

/// A string field whose encoding lies at `pos` decodes back to itself.
pub proof fn lemma_read_str_complete(s: Seq<u8>, pos: int, t: Seq<char>)
    requires
        0 <= pos,
        pos + enc_str(t).len() <= s.len(),
        s.len() <= usize::MAX,
        s.subrange(pos, pos + enc_str(t).len()) == enc_str(t),
    ensures
        read_str_at(s, pos) == Some((t, pos + enc_str(t).len())),
{
    let b = encode_utf8(t);
    let n = b.len();
    let d = dec_digits(n);
    lemma_dec_digits(n);
    let e = enc_str(t);
    assert(e == d + seq![44u8] + b);
    assert(e.len() == d.len() + 1 + n);
    lemma_window_slice(s, pos, e, 0, d.len() as int);
    assert(e.subrange(0, d.len() as int) =~= d);
    assert(s.subrange(pos, pos + d.len() as int) =~= d);
    assert(s[pos + d.len()] == e[d.len() as int]) by {
        assert(e[d.len() as int] == s.subrange(pos, pos + e.len() as int)[d.len() as int]);
    }
    assert(s[pos + d.len()] == 44);
    assert(!is_digit(44u8));
    lemma_take_digits_window(s, pos, d);
    assert(n <= s.len() <= usize::MAX <= u64::MAX);
    assert(scan_len_at(s, pos) == Some((n, pos + d.len() + 1)));
    let p = pos + d.len() + 1;
    lemma_window_slice(s, pos, e, d.len() + 1 as int, e.len() as int);
    assert(e.subrange(d.len() + 1 as int, e.len() as int) =~= b);
    assert(s.subrange(p, p + n as int) =~= b);
    vstd::utf8::encode_utf8_valid_utf8(t);
    vstd::utf8::encode_utf8_decode_utf8(t);
}

/// A decoded record occupies exactly the bytes of its own encoding.
pub proof fn lemma_dec_sound(s: Seq<u8>, pos: int)
    requires
        0 <= pos <= s.len(),
        dec_at(s, pos) is Some,
    ensures
        ({
            let (r, end) = dec_at(s, pos)->Some_0;
            &&& pos < end <= s.len()
            &&& s.subrange(pos, end) == enc(r)
        }),
{
    if s[pos] == 83 {
        let (k, p) = read_str_at(s, pos + 1)->Some_0;
        lemma_read_str_sound(s, pos + 1);
        let (v, q) = read_str_at(s, p)->Some_0;
        lemma_read_str_sound(s, p);
        let r = Rec::Put { key: k, value: v };
        assert(s.subrange(pos, q) =~= seq![s[pos]] + s.subrange(pos + 1, p) + s.subrange(p, q));
        assert(s.subrange(pos, q) =~= enc(r));
    } else {
        let (k, p) = read_str_at(s, pos + 1)->Some_0;
        lemma_read_str_sound(s, pos + 1);
        let r = Rec::Remove { key: k };
        assert(s.subrange(pos, p) =~= seq![s[pos]] + s.subrange(pos + 1, p));
        assert(s.subrange(pos, p) =~= enc(r));
    }
}

/// A record whose encoding lies at `pos` decodes back to itself.
pub proof fn lemma_dec_complete(s: Seq<u8>, pos: int, r: Rec)
    requires
        0 <= pos,
        pos + enc(r).len() <= s.len(),
        s.len() <= usize::MAX,
        s.subrange(pos, pos + enc(r).len()) == enc(r),
    ensures
        dec_at(s, pos) == Some((r, pos + enc(r).len())),
{
    let e = enc(r);
    assert(s[pos] == e[0]);
    match r {
        Rec::Put { key, value } => {
            let ek = enc_str(key);
            let ev = enc_str(value);
            assert(e =~= seq![83u8] + ek + ev);
            lemma_window_slice(s, pos, e, 1, 1 + ek.len() as int);
            assert(e.subrange(1, 1 + ek.len() as int) =~= ek);
            lemma_read_str_complete(s, pos + 1, key);
            let p = pos + 1 + ek.len();
            lemma_window_slice(s, pos, e, 1 + ek.len() as int, e.len() as int);
            assert(e.subrange(1 + ek.len() as int, e.len() as int) =~= ev);
            lemma_read_str_complete(s, p, value);
        },
        Rec::Remove { key } => {
            let ek = enc_str(key);
            assert(e =~= seq![82u8] + ek);
            lemma_window_slice(s, pos, e, 1, e.len() as int);
            assert(e.subrange(1, e.len() as int) =~= ek);
            lemma_read_str_complete(s, pos + 1, key);
        },
    }
}

/// The byte stream of a whole record history, in write order.
pub open spec fn enc_stream(h: Seq<Rec>) -> Seq<u8>
    decreases h.len(),
{
    if h.len() == 0 {
        Seq::empty()
    } else {
        enc_stream(h.drop_last()) + enc(h.last())
    }
}

/// Greedy parse of a whole stream from `pos` to its end. `None` marks a
/// malformed or truncated record anywhere in the stream.
pub open spec fn parse_stream(s: Seq<u8>, pos: int) -> Option<Seq<Rec>>
    decreases s.len() - pos when 0 <= pos <= s.len()
{
    if pos == s.len() {
        Some(Seq::empty())
    } else {
        match dec_at(s, pos) {
            Option::None => None,
            Option::Some((r, end)) => {
                if pos < end <= s.len() {
                    match parse_stream(s, end) {
                        Option::None => None,
                        Option::Some(t) => Some(seq![r] + t),
                    }
                } else {
                    None
                }
            },
        }
    }
}

/// `enc_stream` peeled from the front rather than the back.
pub proof fn lemma_enc_stream_first(h: Seq<Rec>)
    requires
        h.len() > 0,
    ensures
        enc_stream(h) == enc(h.first()) + enc_stream(h.drop_first()),
    decreases h.len(),
{
    if h.len() == 1 {
        assert(h.drop_last() =~= Seq::<Rec>::empty());
        assert(h.drop_first() =~= Seq::<Rec>::empty());
        assert(enc_stream(h) =~= enc(h.first()) + enc_stream(h.drop_first()));
    } else {
        let hl = h.drop_last();
        lemma_enc_stream_first(hl);
        assert(hl.first() == h.first());
        assert(h.drop_first().drop_last() =~= hl.drop_first());
        assert(h.drop_first().last() == h.last());
        assert(h.drop_first().len() > 0);
        assert(enc_stream(h.drop_first()) == enc_stream(hl.drop_first()) + enc(h.last()));
        assert(enc_stream(h) =~= enc(h.first()) + enc_stream(h.drop_first()));
    }
}

/// A whole stream of encoded records parses back to exactly those records.
pub proof fn lemma_parse_enc_stream(s: Seq<u8>, pos: int, h: Seq<Rec>)
    requires
        0 <= pos,
        pos + enc_stream(h).len() == s.len(),
        s.len() <= usize::MAX,
        s.subrange(pos, s.len() as int) == enc_stream(h),
    ensures
        parse_stream(s, pos) == Some(h),
    decreases h.len(),
{
    if h.len() == 0 {
        assert(pos == s.len());
        assert(h =~= Seq::<Rec>::empty());
    } else {
        lemma_enc_stream_first(h);
        let e0 = enc(h.first());
        assert(e0.len() > 0) by {
            match h.first() {
                Rec::Put { key, value } => {},
                Rec::Remove { key } => {},
            }
        }
        let w = enc_stream(h);
        lemma_window_slice(s, pos, w, 0, e0.len() as int);
        assert(w.subrange(0, e0.len() as int) =~= e0);
        assert(s.subrange(pos, pos + e0.len() as int) =~= e0);
        lemma_dec_complete(s, pos, h.first());
        let end = pos + e0.len();
        lemma_window_slice(s, pos, w, e0.len() as int, w.len() as int);
        assert(w.subrange(e0.len() as int, w.len() as int) =~= enc_stream(h.drop_first()));
        assert(s.subrange(end, s.len() as int) =~= enc_stream(h.drop_first()));
        lemma_parse_enc_stream(s, end, h.drop_first());
        assert(seq![h.first()] + h.drop_first() =~= h);
    }
}

/// Relies on `String::from_utf8`: it succeeds exactly on valid UTF-8 input
/// and returns the string whose bytes those are.
#[verifier::external_body]
pub(crate) fn string_from_utf8(v: Vec<u8>) -> (r: Option<String>)
    ensures
        r is Some <==> valid_utf8(v@),
        r matches Some(s) ==> s@ == decode_utf8(v@),
{
    String::from_utf8(v).ok()
}

/// Appends the encoding of one length-prefixed string field.
fn push_str_enc(v: &mut Vec<u8>, s: &String)
    ensures
        final(v)@ == old(v)@ + enc_str(s@),
{
    let b = s.as_str().as_bytes_vec();
    let mut d = u64_to_dec(b.len() as u64);
    v.append(&mut d);
    v.push(44);
    let mut bb = b;
    v.append(&mut bb);
    proof {
        assert(final(v)@ =~= old(v)@ + enc_str(s@));
    }
}

/// Encodes one command into the bytes appended to a segment.
pub fn encode(cmd: &Command) -> (r: Vec<u8>)
    ensures
        r@ == enc(cmd@),
{
    let mut v: Vec<u8> = Vec::new();
    match cmd {
        Command::Put { key, value } => {
            v.push(83);
            push_str_enc(&mut v, key);
            push_str_enc(&mut v, value);
            proof {
                assert(v@ =~= enc(cmd@));
            }
        },
        Command::Remove { key } => {
            v.push(82);
            push_str_enc(&mut v, key);
            proof {
                assert(v@ =~= enc(cmd@));
            }
        },
    }
    v
}

/// Decodes one length-prefixed string field of `data` at `pos`.
fn read_str_exec(data: &Vec<u8>, pos: usize) -> (r: Option<(String, usize)>)
    requires
        pos <= data.len(),
    ensures
        match read_str_at(data@, pos as int) {
            Option::Some((t, end)) => {
                &&& r matches Some(p)
                &&& r->Some_0.0@ == t
                &&& r->Some_0.1 == end
                &&& pos < r->Some_0.1 <= data.len()
            },
            Option::None => r is None,
        },
{
    proof {
        if read_str_at(data@, pos as int) is Some {
            lemma_read_str_sound(data@, pos as int);
        }
        lemma_take_digits_props(data@, pos as int);
    }
    let (after, vopt) = scan_digits(data, pos);
    if after == pos {
        return None;
    }
    if data[pos] == 48 && after - pos > 1 {
        return None;
    }
    let n = match vopt {
        Some(n) => n,
        None => {
            return None;
        },
    };
    if after >= data.len() || data[after] != 44 {
        return None;
    }
    let p = after + 1;
    if n > (data.len() - p) as u64 {
        return None;
    }
    let n = n as usize;
    let mut b: Vec<u8> = Vec::new();
    let mut i = p;
    while i < p + n
        invariant
            p <= i <= p + n,
            p + n <= data.len(),
            b@ == data@.subrange(p as int, i as int),
        decreases p + n - i,
    {
        b.push(data[i]);
        proof {
            assert(b@ =~= data@.subrange(p as int, i + 1 as int));
        }
        i = i + 1;
    }
    match string_from_utf8(b) {
        Some(s) => Some((s, p + n)),
        None => None,
    }
}

/// Decodes one record of `data` at `pos`, with the position just past it.
pub fn decode_at(data: &Vec<u8>, pos: usize) -> (r: Option<(Command, usize)>)
    requires
        pos <= data.len(),
    ensures
        match dec_at(data@, pos as int) {
            Option::Some((rec, end)) => {
                &&& r matches Some(p)
                &&& r->Some_0.0@ == rec
                &&& r->Some_0.1 == end
                &&& pos < r->Some_0.1 <= data.len()
            },
            Option::None => r is None,
        },
{
    proof {
        if dec_at(data@, pos as int) is Some {
            lemma_dec_sound(data@, pos as int);
        }
    }
    if pos >= data.len() {
        return None;
    }
    let tag = data[pos];
    if tag == 83 {
        match read_str_exec(data, pos + 1) {
            Some((key, p)) => {
                match read_str_exec(data, p) {
                    Some((value, q)) => Some((Command::Put { key, value }, q)),
                    None => None,
                }
            },
            None => None,
        }
    } else if tag == 82 {
        match read_str_exec(data, pos + 1) {
            Some((key, p)) => Some((Command::Remove { key }, p)),
            None => None,
        }
    } else {
        None
    }
}

} // verus!
