//! Numeric tokens: stripping thousands separators, parsing, and rendering
//! with thousands separators.

use vstd::prelude::*;

use crate::text::{dec_str, digit_char, digit_val, is_digit, is_digit_char, push_char, to_decimal};

verus! {

/// `s` with every comma removed.
pub open spec fn strip_commas(s: Seq<char>) -> Seq<char> {
    s.filter(|c: char| c != ',')
}

/// The value of a sequence of decimal digits, most significant first.
pub open spec fn digits_val(s: Seq<char>) -> nat
    decreases s.len(),
{
    if s.len() == 0 {
        0
    } else {
        digits_val(s.drop_last()) * 10 + digit_val(s.last()) as nat
    }
}

/// Whether every character is a decimal digit.
pub open spec fn all_digits(s: Seq<char>) -> bool {
    forall|i: int| 0 <= i < s.len() ==> is_digit(#[trigger] s[i])
}

/// What `drop_commas_and_parse` accepts: after commas are stripped the token
/// is a non-empty run of decimal digits whose value fits in `usize`.
pub open spec fn spec_parse_num(s: Seq<char>) -> Option<usize> {
    let d = strip_commas(s);
    if d.len() > 0 && all_digits(d) && digits_val(d) <= usize::MAX {
        Some(digits_val(d) as usize)
    } else {
        None
    }
}

/// Drops all commas in a string.
pub fn drop_commas(s: &str) -> (r: String)
    ensures
        r@ == strip_commas(s@),
{
    let n = s.unicode_len();
    let mut r = String::new();
    let mut i: usize = 0;
    while i < n
        invariant
            n == s@.len(),
            i <= n,
            r@ == strip_commas(s@.take(i as int)),
        decreases n - i,
    {
        let c = s.get_char(i);
        proof {
            assert(s@.take(i + 1).drop_last() =~= s@.take(i as int));
            assert(s@.take(i + 1).last() == c);
            s@.take(i as int).lemma_filter_push(c, |x: char| x != ',');
            assert(s@.take(i as int).push(c) =~= s@.take(i + 1));
        }
        if c != ',' {
            push_char(&mut r, c);
        }
        i += 1;
    }
    proof {
        assert(s@.take(n as int) =~= s@);
    }
    r
}

/// Appending digits can only grow the value.
proof fn lemma_digits_val_prefix(s: Seq<char>, i: int)
    requires
        0 <= i <= s.len(),
    ensures
        digits_val(s.take(i)) <= digits_val(s),
    decreases s.len() - i,
{
    if i < s.len() {
        assert(s.take(i + 1).drop_last() =~= s.take(i));
        assert(digits_val(s.take(i)) <= digits_val(s.take(i + 1)));
        lemma_digits_val_prefix(s, i + 1);
    } else {
        assert(s.take(i) =~= s);
    }
}

/// Drops all commas in a string and parses it as an unsigned integer.
///
/// Accepts a non-empty run of decimal digits, optionally interspersed with
/// commas; any other character, an empty digit run, or a value over
/// `usize::MAX` is rejected.
pub fn drop_commas_and_parse(s: &str) -> (r: Option<usize>)
    ensures
        r == spec_parse_num(s@),
{
    let d = drop_commas(s);
    let ds = d.as_str();
    let n = ds.unicode_len();
    if n == 0 {
        return None;
    }
    let mut acc: usize = 0;
    let mut i: usize = 0;
    while i < n
        invariant
            n == ds@.len(),
            ds@ == strip_commas(s@),
            n > 0,
            i <= n,
            all_digits(ds@.take(i as int)),
            acc == digits_val(ds@.take(i as int)),
        decreases n - i,
    {
        let c = ds.get_char(i);
        proof {
            assert(ds@.take(i + 1).drop_last() =~= ds@.take(i as int));
            assert(ds@.take(i + 1).last() == c);
        }
        if !is_digit_char(c) {
            proof {
                assert(!all_digits(ds@));
            }
            return None;
        }
        let dv = (c as u32 - 48) as usize;
        if acc > (usize::MAX - dv) / 10 {
            proof {
                assert(digits_val(ds@.take(i + 1)) > usize::MAX);
                lemma_digits_val_prefix(ds@, i + 1);
            }
            return None;
        }
        acc = acc * 10 + dv;
        i += 1;
    }
    proof {
        assert(ds@.take(n as int) =~= ds@);
    }
    Some(acc)
}

/// A three-digit, zero-padded decimal rendering of `k` (for `k < 1000`).
pub open spec fn pad3_str(k: nat) -> Seq<char> {
    seq![
        digit_char((k / 100) as int),
        digit_char(((k / 10) % 10) as int),
        digit_char((k % 10) as int),
    ]
}

/// The decimal rendering of `n` with `sep` between groups of three digits.
pub open spec fn thousands_str(n: nat, sep: char) -> Seq<char>
    decreases n,
{
    if n < 1000 {
        dec_str(n)
    } else {
        thousands_str(n / 1000, sep) + seq![sep] + pad3_str((n % 1000) as nat)
    }
}

/// Formats a number with thousands separators.
pub fn fmt_thousands_sep(n: usize, sep: char) -> (r: String)
    ensures
        r@ == thousands_str(n as nat, sep),
    decreases n,
{
    if n < 1000 {
        let r = to_decimal(n as u128);
        proof {
            assert(r@ =~= thousands_str(n as nat, sep));
        }
        r
    } else {
        let mut r = fmt_thousands_sep(n / 1000, sep);
        push_char(&mut r, sep);
        let k = n % 1000;
        push_char(&mut r, crate::text::digit_to_char((k / 100) as u8));
        push_char(&mut r, crate::text::digit_to_char(((k / 10) % 10) as u8));
        push_char(&mut r, crate::text::digit_to_char((k % 10) as u8));
        proof {
            assert(r@ =~= thousands_str(n as nat, sep));
        }
        r
    }
}


} // verus!
