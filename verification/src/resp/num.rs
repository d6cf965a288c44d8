//! Decimal text: writing canonical digits and reading digit strings.

use vstd::prelude::*;
use crate::resp::wire::{all_digits, dec_digits, digits_val, int_of};

verus! {

pub proof fn lemma_digits_val_push(t: Seq<u8>, d: u8)
    requires
        48 <= d,
    ensures
        digits_val(t.push(d)) == digits_val(t) * 10 + d - 48,
{
    assert(t.push(d).drop_last() =~= t);
}

/// The value of a digit string dominates the value of any of its prefixes.
pub proof fn lemma_digits_val_take_le(t: Seq<u8>, k: int)
    requires
        all_digits(t),
        0 <= k <= t.len(),
    ensures
        digits_val(t.take(k)) <= digits_val(t),
    decreases t.len() - k,
{
    if k < t.len() {
        assert(t.take(k + 1).drop_last() =~= t.take(k));
        assert(t.take(k + 1).last() == t[k]);
        assert(digits_val(t.take(k)) <= digits_val(t.take(k + 1)));
        lemma_digits_val_take_le(t, k + 1);
    } else {
        assert(t.take(k) =~= t);
    }
}

/// Every canonical digit sequence is made of digit bytes.
pub proof fn lemma_dec_digits_are_digits(n: nat)
    ensures
        all_digits(dec_digits(n)),
        dec_digits(n).len() >= 1,
    decreases n,
{
    if n >= 10 {
        lemma_dec_digits_are_digits(n / 10);
        assert forall|i: int| 0 <= i < dec_digits(n).len() implies 48 <= #[trigger] dec_digits(
            n,
        )[i] <= 57 by {
            if i < dec_digits(n).len() - 1 {
                assert(dec_digits(n)[i] == dec_digits(n / 10)[i]);
            }
        }
    }
}

/// Reading back the canonical digits of a number gives the number.
pub proof fn lemma_digits_val_dec_digits(n: nat)
    ensures
        digits_val(dec_digits(n)) == n,
    decreases n,
{
    if n < 10 {
        let d = dec_digits(n);
        assert(d =~= seq![(48 + n) as u8]);
        assert(d.drop_last() =~= Seq::<u8>::empty());
        assert(digits_val(Seq::<u8>::empty()) == 0);
        assert(d.last() == (48 + n) as u8);
        assert((48 + n) as u8 == 48 + n);
        assert(digits_val(d) == n);
    } else {
        lemma_digits_val_dec_digits(n / 10);
        lemma_digits_val_push(dec_digits(n / 10), (48 + n % 10) as u8);
        assert((48 + n % 10) as u8 == 48 + n % 10);
        assert(digits_val(dec_digits(n)) == (n / 10) * 10 + n % 10);
        assert((n / 10) * 10 + n % 10 == n) by (nonlinear_arith);
    }
}

/// Writes the canonical decimal digits of `n`, most significant first.
pub(crate) fn u64_to_digits(n: u64) -> (r: Vec<u8>)
    ensures
        r@ == dec_digits(n as nat),
{
    let mut rev: Vec<u8> = Vec::new();
    let mut m: u64 = n;
    proof {
        assert(dec_digits(n as nat) =~= dec_digits(m as nat) + rev@.reverse());
    }
    while m >= 10
        invariant
            dec_digits(n as nat) == dec_digits(m as nat) + rev@.reverse(),
        decreases m,
    {
        let d: u8 = (m % 10) as u8 + 48;
        proof {
            assert(dec_digits(m as nat) == dec_digits((m as nat) / 10).push(d));
            assert(rev@.push(d).reverse() =~= seq![d] + rev@.reverse());
            assert(dec_digits((m as nat) / 10).push(d) + rev@.reverse() =~= dec_digits(
                (m as nat) / 10,
            ) + (seq![d] + rev@.reverse()));
        }
        rev.push(d);
        m = m / 10;
    }
    let d: u8 = m as u8 + 48;
    proof {
        assert(dec_digits(m as nat) =~= seq![d]);
        assert(rev@.push(d).reverse() =~= seq![d] + rev@.reverse());
    }
    rev.push(d);
    let ghost digs = rev@;
    proof {
        assert(dec_digits(n as nat) == digs.reverse());
    }
    let mut out: Vec<u8> = Vec::new();
    let mut i: usize = rev.len();
    proof {
        assert(out@ =~= digs.reverse().take(0));
    }
    while i > 0
        invariant
            i <= digs.len(),
            rev@ == digs,
            out@ == digs.reverse().take(digs.len() - i),
        decreases i,
    {
        let d: u8 = rev[i - 1];
        proof {
            assert(digs.reverse()[digs.len() - i] == digs[i - 1]);
            assert(digs.reverse().take(digs.len() - (i - 1)) =~= digs.reverse().take(
                digs.len() - i,
            ).push(d));
        }
        out.push(d);
        i = i - 1;
    }
    proof {
        assert(out@ =~= digs.reverse());
    }
    out
}

/// Reads the digit string `b[lo..hi]` as a `usize`: `None` when it is
/// empty, has a non-digit, or overflows.
pub(crate) fn parse_usize(b: &[u8], lo: usize, hi: usize) -> (r: Option<usize>)
    requires
        lo <= hi <= b@.len(),
    ensures
        ({
            let t = b@.subrange(lo as int, hi as int);
            match r {
                Some(v) => t.len() >= 1 && all_digits(t) && digits_val(t) == v,
                None => t.len() == 0 || !all_digits(t) || digits_val(t) > usize::MAX,
            }
        }),
{
    let ghost t = b@.subrange(lo as int, hi as int);
    if lo == hi {
        return None;
    }
    let mut acc: usize = 0;
    let mut i: usize = lo;
    while i < hi
        invariant
            lo <= i <= hi <= b@.len(),
            t == b@.subrange(lo as int, hi as int),
            all_digits(t.take(i - lo)),
            acc == digits_val(t.take(i - lo)),
        decreases hi - i,
    {
        let d: u8 = b[i];
        proof {
            assert(t[i - lo] == d);
            assert(t.take(i - lo + 1) =~= t.take(i - lo).push(d));
        }
        if d < 48 || d > 57 {
            proof {
                assert(!(48 <= t[i - lo] <= 57));
                assert(!all_digits(t));
            }
            return None;
        }
        proof {
            lemma_digits_val_push(t.take(i - lo), d);
        }
        let step = match acc.checked_mul(10) {
            Some(x) => x.checked_add((d - 48) as usize),
            None => None,
        };
        match step {
            Some(x) => {
                acc = x;
            },
            None => {
                proof {
                    assert(digits_val(t.take(i - lo + 1)) > usize::MAX);
                    if all_digits(t) {
                        lemma_digits_val_take_le(t, i - lo + 1);
                    }
                }
                return None;
            },
        }
        i = i + 1;
    }
    proof {
        assert(t.take(hi - lo) =~= t);
    }
    Some(acc)
}

/// Reads the line `b[lo..hi]` as a signed 64-bit integer: an optional
/// explicit sign, then at least one digit, the value in range.
#[verifier::loop_isolation(false)]
pub(crate) fn parse_i64(b: &[u8], lo: usize, hi: usize) -> (r: Option<i64>)
    requires
        lo <= hi <= b@.len(),
    ensures
        r == int_of(b@.subrange(lo as int, hi as int)),
{
    let ghost t = b@.subrange(lo as int, hi as int);
    if lo == hi {
        return None;
    }
    let c: u8 = b[lo];
    let (neg, dlo): (bool, usize) = if c == 43 {
        (false, lo + 1)
    } else if c == 45 {
        (true, lo + 1)
    } else {
        (false, lo)
    };
    let ghost d = b@.subrange(dlo as int, hi as int);
    proof {
        if dlo > lo {
            assert(d =~= t.drop_first());
        } else {
            assert(d =~= t);
        }
    }
    if dlo == hi {
        return None;
    }
    let mut acc: u128 = 0;
    let mut i: usize = dlo;
    while i < hi
        invariant
            dlo <= i <= hi <= b@.len(),
            d == b@.subrange(dlo as int, hi as int),
            all_digits(d.take(i - dlo)),
            acc == digits_val(d.take(i - dlo)),
        decreases hi - i,
    {
        let g: u8 = b[i];
        proof {
            assert(d[i - dlo] == g);
            assert(d.take(i - dlo + 1) =~= d.take(i - dlo).push(g));
        }
        if g < 48 || g > 57 {
            proof {
                assert(!(48 <= d[i - dlo] <= 57));
                assert(!all_digits(d));
            }
            return None;
        }
        proof {
            lemma_digits_val_push(d.take(i - dlo), g);
        }
        let step = match acc.checked_mul(10) {
            Some(x) => x.checked_add((g - 48) as u128),
            None => None,
        };
        match step {
            Some(x) => {
                acc = x;
            },
            None => {
                proof {
                    assert(digits_val(d.take(i - dlo + 1)) > u128::MAX);
                    if all_digits(d) {
                        lemma_digits_val_take_le(d, i - dlo + 1);
                    }
                }
                return None;
            },
        }
        i = i + 1;
    }
    proof {
        assert(d.take(hi - dlo) =~= d);
    }
    if neg {
        if acc > 0x8000_0000_0000_0000u128 {
            None
        } else if acc == 0x8000_0000_0000_0000u128 {
            Some(i64::MIN)
        } else {
            Some(-(acc as i64))
        }
    } else {
        if acc > 0x7fff_ffff_ffff_ffffu128 {
            None
        } else {
            Some(acc as i64)
        }
    }
}

} // verus!
