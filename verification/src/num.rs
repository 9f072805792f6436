//! Canonical decimal notation over byte strings: the record format and the
//! wire codec both write lengths and integers as ASCII digit runs.

use vstd::prelude::*;

verus! {

/// Whether `b` is an ASCII decimal digit.
pub open spec fn is_digit(b: u8) -> bool {
    48 <= b && b <= 57
}

/// Every byte of `d` is an ASCII decimal digit.
pub open spec fn all_digits(d: Seq<u8>) -> bool {
    forall|i: int| 0 <= i < d.len() ==> is_digit(#[trigger] d[i])
}

/// `d` is the canonical spelling of a number: nonempty and without a
/// superfluous leading zero.
pub open spec fn canonical_digits(d: Seq<u8>) -> bool {
    d.len() > 0 && (d[0] != 48 || d.len() == 1)
}

/// The canonical decimal digits of `n`, most significant first.
pub open spec fn dec_digits(n: nat) -> Seq<u8>
    decreases n,
{
    if n < 10 {
        seq![(48 + n) as u8]
    } else {
        dec_digits(n / 10).push((48 + n % 10) as u8)
    }
}

/// The number a digit run denotes.
pub open spec fn digits_val(d: Seq<u8>) -> nat
    decreases d.len(),
{
    if d.len() == 0 {
        0
    } else {
        digits_val(d.drop_last()) * 10 + (d.last() - 48) as nat
    }
}

/// The maximal digit run of `s` starting at `pos`.
pub open spec fn take_digits(s: Seq<u8>, pos: int) -> Seq<u8>
    decreases s.len() - pos when 0 <= pos <= s.len()
{
    if 0 <= pos < s.len() && is_digit(s[pos]) {
        seq![s[pos]] + take_digits(s, pos + 1)
    } else {
        Seq::empty()
    }
}

/// `dec_digits` always yields a canonical digit run denoting its argument.
pub proof fn lemma_dec_digits(n: nat)
    ensures
        dec_digits(n).len() >= 1,
        all_digits(dec_digits(n)),
        canonical_digits(dec_digits(n)),
        digits_val(dec_digits(n)) == n,
        n >= 1 ==> dec_digits(n)[0] != 48,
    decreases n,
{
    assert(digits_val(Seq::<u8>::empty()) == 0);
    if n < 10 {
        let d = dec_digits(n);
        assert(d =~= seq![(48 + n) as u8]);
        assert(d.drop_last() =~= Seq::<u8>::empty());
        assert(d.last() == (48 + n) as u8);
        assert(digits_val(d) == digits_val(d.drop_last()) * 10 + (d.last() - 48) as nat);
        assert(digits_val(d) == n);
    } else {
        lemma_dec_digits(n / 10);
        vstd::arithmetic::div_mod::lemma_fundamental_div_mod(n as int, 10);
        let d = dec_digits(n);
        assert(d.drop_last() =~= dec_digits(n / 10));
        assert(d.last() == (48 + n % 10) as u8);
        assert(digits_val(d) == digits_val(d.drop_last()) * 10 + (d.last() - 48) as nat);
        assert(digits_val(d) == (n / 10) * 10 + n % 10);
        assert(d[0] == dec_digits(n / 10)[0]);
    }
}

/// A digit run with a nonzero leading digit denotes at least 1.
pub proof fn lemma_digits_val_pos(d: Seq<u8>)
    requires
        all_digits(d),
        d.len() >= 1,
        d[0] != 48,
    ensures
        digits_val(d) >= 1,
    decreases d.len(),
{
    if d.len() == 1 {
        assert(d.drop_last() =~= Seq::<u8>::empty());
    } else {
        let dl = d.drop_last();
        assert(dl[0] == d[0]);
        assert(all_digits(dl));
        lemma_digits_val_pos(dl);
    }
}

/// A canonical digit run is the canonical spelling of its own value.
pub proof fn lemma_digits_canonical(d: Seq<u8>)
    requires
        all_digits(d),
        canonical_digits(d),
    ensures
        dec_digits(digits_val(d)) == d,
    decreases d.len(),
{
    if d.len() == 1 {
        assert(d.drop_last() =~= Seq::<u8>::empty());
        assert(digits_val(Seq::<u8>::empty()) == 0);
        assert(d.last() == d[0]);
        assert(digits_val(d) == digits_val(d.drop_last()) * 10 + (d.last() - 48) as nat);
        assert(digits_val(d) == (d[0] - 48) as nat);
        assert(dec_digits(digits_val(d)) =~= d);
    } else {
        let dl = d.drop_last();
        assert(dl[0] == d[0]);
        assert(all_digits(dl));
        lemma_digits_val_pos(dl);
        lemma_digits_canonical(dl);
        let n = digits_val(d);
        let b = (d.last() - 48) as nat;
        assert(n == digits_val(dl) * 10 + b);
        assert(b < 10);
        assert(n / 10 == digits_val(dl) && n % 10 == b) by {
            vstd::arithmetic::div_mod::lemma_fundamental_div_mod_converse(
                n as int, 10, digits_val(dl) as int, b as int);
        }
        assert(n >= 10);
        assert(dec_digits(n) =~= dl.push(d.last()));
        assert(dl.push(d.last()) =~= d);
    }
}

/// A digit run lying in `s` at `pos` and bounded on its right by a non-digit
/// (or the end of `s`) is exactly the maximal run at `pos`.
pub proof fn lemma_take_digits_window(s: Seq<u8>, pos: int, d: Seq<u8>)
    requires
        0 <= pos,
        pos + d.len() <= s.len(),
        all_digits(d),
        s.subrange(pos, pos + d.len()) == d,
        pos + d.len() == s.len() || !is_digit(s[pos + d.len()]),
    ensures
        take_digits(s, pos) == d,
    decreases d.len(),
{
    if d.len() == 0 {
        assert(take_digits(s, pos) =~= d);
    } else {
        assert(s[pos] == d[0]);
        assert(s.subrange(pos + 1, pos + d.len()) =~= d.drop_first());
        assert(all_digits(d.drop_first()));
        lemma_take_digits_window(s, pos + 1, d.drop_first());
        assert(take_digits(s, pos) =~= seq![s[pos]] + d.drop_first());
        assert(seq![s[pos]] + d.drop_first() =~= d);
    }
}

/// The maximal digit run at `pos` lies in `s` and is bounded on its right by
/// a non-digit or the end of `s`.
pub proof fn lemma_take_digits_props(s: Seq<u8>, pos: int)
    requires
        0 <= pos <= s.len(),
    ensures
        pos + take_digits(s, pos).len() <= s.len(),
        all_digits(take_digits(s, pos)),
        s.subrange(pos, pos + take_digits(s, pos).len()) == take_digits(s, pos),
        pos + take_digits(s, pos).len() == s.len()
            || !is_digit(s[pos + take_digits(s, pos).len()]),
    decreases s.len() - pos,
{
    if 0 <= pos < s.len() && is_digit(s[pos]) {
        lemma_take_digits_props(s, pos + 1);
        let t = take_digits(s, pos);
        assert(t =~= seq![s[pos]] + take_digits(s, pos + 1));
        assert(s.subrange(pos, pos + t.len()) =~= t);
    } else {
        assert(take_digits(s, pos) =~= Seq::<u8>::empty());
        assert(s.subrange(pos, pos) =~= Seq::<u8>::empty());
    }
}

/// The canonical decimal bytes of `n`, most significant digit first.
pub fn u64_to_dec(n: u64) -> (r: Vec<u8>)
    ensures
        r@ == dec_digits(n as nat),
    decreases n,
{
    if n < 10 {
        let mut v: Vec<u8> = Vec::new();
        v.push(48 + n as u8);
        proof {
            assert(v@ =~= dec_digits(n as nat));
        }
        v
    } else {
        let mut v = u64_to_dec(n / 10);
        v.push(48 + (n % 10) as u8);
        v
    }
}

/// Scans the maximal digit run of `data` starting at `pos`, returning the
/// position just past the run and its value, or `None` for the value when it
/// does not fit in a `u64`.
pub fn scan_digits(data: &Vec<u8>, pos: usize) -> (r: (usize, Option<u64>))
    requires
        pos <= data.len(),
    ensures
        r.0 == pos + take_digits(data@, pos as int).len(),
        pos <= r.0 <= data.len(),
        match r.1 {
            Some(v) => v as nat == digits_val(take_digits(data@, pos as int)),
            None => digits_val(take_digits(data@, pos as int)) > u64::MAX,
        },
{
    let ghost s = data@;
    let mut i: usize = pos;
    let mut acc: Option<u64> = Some(0);
    proof {
        assert(s.subrange(pos as int, pos as int) =~= Seq::<u8>::empty());
    }
    while i < data.len() && 48 <= data[i] && data[i] <= 57
        invariant
            pos <= i <= data.len(),
            s == data@,
            all_digits(s.subrange(pos as int, i as int)),
            take_digits(s, pos as int) == s.subrange(pos as int, i as int)
                + take_digits(s, i as int),
            match acc {
                Some(v) => v as nat == digits_val(s.subrange(pos as int, i as int)),
                None => digits_val(s.subrange(pos as int, i as int)) > u64::MAX,
            },
        decreases data.len() - i,
    {
        let b = data[i];
        let ghost pre = s.subrange(pos as int, i as int);
        let ghost cur = s.subrange(pos as int, i + 1 as int);
        proof {
            assert(cur.drop_last() =~= pre);
            assert(cur.last() == s[i as int]);
            assert(digits_val(cur) == digits_val(pre) * 10 + (b - 48) as nat);
        }
        acc = match acc {
            Some(v) => {
                match v.checked_mul(10) {
                    Some(m) => m.checked_add((b - 48) as u64),
                    None => None,
                }
            },
            None => None,
        };
        proof {
            assert(take_digits(s, i as int) =~= seq![s[i as int]] + take_digits(s, i + 1));
            assert(take_digits(s, pos as int) =~= cur + take_digits(s, i + 1));
        }
        i = i + 1;
    }
    proof {
        assert(take_digits(s, i as int) =~= Seq::<u8>::empty());
        assert(take_digits(s, pos as int) =~= s.subrange(pos as int, i as int));
    }
    (i, acc)
}

} // verus!
