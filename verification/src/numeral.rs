//! Arbitrary-precision signed decimal numerals: parsing from text and
//! three-way comparison by numeric value. A numeral keeps its digits most
//! significant first, with no leading zero, and zero itself is the empty
//! digit string with a positive sign.

use vstd::prelude::*;
use vstd::arithmetic::power::{pow, lemma_pow_increases, lemma_pow_adds, lemma_pow0, lemma_pow1,
    lemma_pow_positive};
use vstd::string::StrSliceExecFns;
use core::cmp::Ordering;

verus! {

/// A signed decimal integer of unbounded size.
#[derive(Debug, Clone, PartialEq)]
pub struct Number {
    pub is_negative: bool,
    pub digits: Vec<u8>,
}

/// The integer a digit string denotes, most significant digit first.
pub open spec fn digits_value(ds: Seq<u8>) -> int
    decreases ds.len(),
{
    if ds.len() == 0 {
        0
    } else {
        digits_value(ds.drop_last()) * 10 + ds.last()
    }
}

/// Every digit is below ten.
pub open spec fn digits_lt10(ds: Seq<u8>) -> bool {
    forall|i: int| 0 <= i < ds.len() ==> ds[i] < 10
}

impl View for Number {
    type V = int;

    open spec fn view(&self) -> int {
        if self.is_negative {
            -digits_value(self.digits@)
        } else {
            digits_value(self.digits@)
        }
    }
}

impl Number {
    /// Canonical form: digits below ten, no leading zero, and no negative
    /// zero.
    pub open spec fn wf(&self) -> bool {
        &&& digits_lt10(self.digits@)
        &&& (self.digits@.len() > 0 ==> self.digits@[0] != 0)
        &&& (self.is_negative ==> self.digits@.len() > 0)
    }
}

/// A digit string of length `n` denotes a value below `10^n`.
proof fn lemma_digits_value_upper(ds: Seq<u8>)
    requires
        digits_lt10(ds),
    ensures
        0 <= digits_value(ds) < pow(10, ds.len()),
    decreases ds.len(),
{
    if ds.len() == 0 {
        lemma_pow0(10);
    } else {
        let dl = ds.drop_last();
        assert(digits_lt10(dl));
        lemma_digits_value_upper(dl);
        lemma_pow1(10);
        lemma_pow_adds(10, 1, (ds.len() - 1) as nat);
        assert(pow(10, ds.len()) == 10 * pow(10, (ds.len() - 1) as nat));
        assert(digits_value(ds) == digits_value(dl) * 10 + ds.last());
        assert(ds.last() < 10);
        let p = pow(10, dl.len());
        assert(digits_value(dl) * 10 <= (p - 1) * 10) by (nonlinear_arith)
            requires
                digits_value(dl) <= p - 1,
        ;
    }
}

/// With no leading zero, a digit string of length `n` denotes at least
/// `10^(n-1)`.
proof fn lemma_digits_value_lower(ds: Seq<u8>)
    requires
        digits_lt10(ds),
        ds.len() > 0,
        ds[0] != 0,
    ensures
        digits_value(ds) >= pow(10, (ds.len() - 1) as nat),
    decreases ds.len(),
{
    if ds.len() == 1 {
        lemma_pow0(10);
        assert(digits_value(ds) == digits_value(ds.drop_last()) * 10 + ds.last());
        assert(ds.drop_last().len() == 0);
        assert(ds.last() == ds[0]);
    } else {
        let dl = ds.drop_last();
        assert(digits_lt10(dl));
        assert(dl[0] == ds[0]);
        lemma_digits_value_lower(dl);
        lemma_pow1(10);
        lemma_pow_adds(10, 1, (ds.len() - 2) as nat);
        assert(pow(10, (ds.len() - 1) as nat) == 10 * pow(10, (ds.len() - 2) as nat));
        assert(digits_value(ds) == digits_value(dl) * 10 + ds.last());
        let p = pow(10, (ds.len() - 2) as nat);
        assert(digits_value(dl) * 10 >= p * 10) by (nonlinear_arith)
            requires
                digits_value(dl) >= p,
        ;
    }
}

/// A shorter canonical digit string denotes a smaller value.
proof fn lemma_digits_value_len_lt(a: Seq<u8>, b: Seq<u8>)
    requires
        digits_lt10(a),
        digits_lt10(b),
        b.len() > 0,
        b[0] != 0,
        a.len() < b.len(),
    ensures
        digits_value(a) < digits_value(b),
{
    lemma_digits_value_upper(a);
    lemma_digits_value_lower(b);
    lemma_pow_increases(10, a.len(), (b.len() - 1) as nat);
}

/// Between equal-length digit strings, the first differing digit decides.
proof fn lemma_digits_value_lex(a: Seq<u8>, b: Seq<u8>, k: int)
    requires
        digits_lt10(a),
        digits_lt10(b),
        a.len() == b.len(),
        0 <= k < a.len(),
        forall|j: int| 0 <= j < k ==> a[j] == b[j],
        a[k] < b[k],
    ensures
        digits_value(a) < digits_value(b),
    decreases a.len(),
{
    if k == a.len() - 1 {
        assert(a.drop_last() =~= b.drop_last());
        assert(digits_value(a) == digits_value(a.drop_last()) * 10 + a.last());
        assert(digits_value(b) == digits_value(b.drop_last()) * 10 + b.last());
    } else {
        assert(digits_lt10(a.drop_last()));
        assert(digits_lt10(b.drop_last()));
        lemma_digits_value_lex(a.drop_last(), b.drop_last(), k);
        let va = digits_value(a.drop_last());
        let vb = digits_value(b.drop_last());
        assert(digits_value(a) == va * 10 + a.last());
        assert(digits_value(b) == vb * 10 + b.last());
        assert(va + 1 <= vb);
        assert(va * 10 + 10 <= vb * 10) by (nonlinear_arith)
            requires
                va + 1 <= vb,
        ;
    }
}

/// Compares equal-length digit strings lexicographically, which for
/// canonical digits is comparison by value.
fn cmp_digits(a: &Vec<u8>, b: &Vec<u8>) -> (r: Ordering)
    requires
        a@.len() == b@.len(),
        digits_lt10(a@),
        digits_lt10(b@),
    ensures
        match r {
            Ordering::Equal => a@ == b@,
            Ordering::Less => digits_value(a@) < digits_value(b@),
            Ordering::Greater => digits_value(a@) > digits_value(b@),
        },
{
    let mut i: usize = 0;
    while i < a.len()
        invariant
            i <= a@.len(),
            a@.len() == b@.len(),
            digits_lt10(a@),
            digits_lt10(b@),
            forall|j: int| 0 <= j < i ==> a@[j] == b@[j],
        decreases a@.len() - i,
    {
        if a[i] < b[i] {
            proof {
                lemma_digits_value_lex(a@, b@, i as int);
            }
            return Ordering::Less;
        }
        if a[i] > b[i] {
            proof {
                lemma_digits_value_lex(b@, a@, i as int);
            }
            return Ordering::Greater;
        }
        i = i + 1;
    }
    proof {
        assert(a@ =~= b@);
    }
    Ordering::Equal
}

/// Orders two canonical numerals by their integer value.
pub fn compare(a: &Number, b: &Number) -> (r: Ordering)
    requires
        a.wf(),
        b.wf(),
    ensures
        (r == Ordering::Equal) <==> (a@ == b@),
        (r == Ordering::Less) <==> (a@ < b@),
        (r == Ordering::Greater) <==> (a@ > b@),
{
    proof {
        lemma_digits_value_upper(a.digits@);
        lemma_digits_value_upper(b.digits@);
        if a.digits@.len() > 0 && a.digits@[0] != 0 {
            lemma_digits_value_lower(a.digits@);
            lemma_pow_positive(10, (a.digits@.len() - 1) as nat);
        }
        if b.digits@.len() > 0 && b.digits@[0] != 0 {
            lemma_digits_value_lower(b.digits@);
            lemma_pow_positive(10, (b.digits@.len() - 1) as nat);
        }
    }
    if a.digits.len() == 0 && b.digits.len() == 0 {
        return Ordering::Equal;
    }
    if a.is_negative && !b.is_negative {
        return Ordering::Less;
    }
    if !a.is_negative && b.is_negative {
        return Ordering::Greater;
    }
    if !a.is_negative {
        if a.digits.len() < b.digits.len() {
            proof {
                lemma_digits_value_len_lt(a.digits@, b.digits@);
            }
            Ordering::Less
        } else if a.digits.len() > b.digits.len() {
            proof {
                lemma_digits_value_len_lt(b.digits@, a.digits@);
            }
            Ordering::Greater
        } else {
            cmp_digits(&a.digits, &b.digits)
        }
    } else {
        if a.digits.len() < b.digits.len() {
            proof {
                lemma_digits_value_len_lt(a.digits@, b.digits@);
            }
            Ordering::Greater
        } else if a.digits.len() > b.digits.len() {
            proof {
                lemma_digits_value_len_lt(b.digits@, a.digits@);
            }
            Ordering::Less
        } else {
            match cmp_digits(&a.digits, &b.digits) {
                Ordering::Less => Ordering::Greater,
                Ordering::Greater => Ordering::Less,
                Ordering::Equal => Ordering::Equal,
            }
        }
    }
}

/// A decimal digit character.
pub open spec fn is_digit_char(c: char) -> bool {
    48 <= c as u32 <= 57
}

/// The value of a decimal digit character.
pub open spec fn digit_val(c: char) -> u8 {
    (c as u32 - 48) as u8
}

pub open spec fn all_digits(s: Seq<char>) -> bool {
    forall|i: int| 0 <= i < s.len() ==> is_digit_char(s[i])
}

pub open spec fn digit_vals(s: Seq<char>) -> Seq<u8> {
    s.map_values(|c: char| digit_val(c))
}

/// Splits a leading `-` or `+` off a numeral.
pub open spec fn strip_sign(s: Seq<char>) -> (bool, Seq<char>) {
    if s.len() > 0 && s[0] == '-' {
        (true, s.drop_first())
    } else if s.len() > 0 && s[0] == '+' {
        (false, s.drop_first())
    } else {
        (false, s)
    }
}

/// Drops leading zero characters.
pub open spec fn strip_zeros(s: Seq<char>) -> Seq<char>
    decreases s.len(),
{
    if s.len() > 0 && s[0] == '0' {
        strip_zeros(s.drop_first())
    } else {
        s
    }
}

/// What parsing a trimmed numeral yields: the sign and the canonical digit
/// values, or nothing for the empty string or a non-digit character. A
/// numeral that is all zeros (sign included) denotes canonical zero.
pub open spec fn parse_number(s: Seq<char>) -> Option<(bool, Seq<u8>)> {
    if s.len() == 0 {
        None
    } else {
        let (neg, rest) = strip_sign(s);
        let core = strip_zeros(rest);
        if core.len() == 0 {
            Some((false, Seq::empty()))
        } else if all_digits(core) {
            Some((neg, digit_vals(core)))
        } else {
            None
        }
    }
}

impl Number {
    /// Parses a numeral with no surrounding whitespace: an optional sign,
    /// then decimal digits. Leading zeros are dropped; the empty string and
    /// any non-digit character are rejected.
    pub fn parse(s: &str) -> (r: Option<Number>)
        ensures
            match r {
                Some(n) => parse_number(s@) == Some((n.is_negative, n.digits@)) && n.wf(),
                None => parse_number(s@) is None,
            },
    {
        let len = s.unicode_len();
        if len == 0 {
            return None;
        }
        let first = s.get_char(0);
        let neg: bool = first == '-';
        let sidx: usize = if first == '-' || first == '+' {
            1
        } else {
            0
        };
        let ghost rest = s@.subrange(sidx as int, len as int);
        proof {
            assert(s@.drop_first() =~= s@.subrange(1, len as int));
            assert(s@.subrange(0, len as int) =~= s@);
            assert(strip_sign(s@) == (neg, rest));
        }
        let mut idx: usize = sidx;
        while idx < len && s.get_char(idx) == '0'
            invariant
                sidx <= idx <= len,
                len == s@.len(),
                rest == s@.subrange(sidx as int, len as int),
                strip_zeros(rest) == strip_zeros(s@.subrange(idx as int, len as int)),
            decreases len - idx,
        {
            proof {
                let sub = s@.subrange(idx as int, len as int);
                assert(sub[0] == s@[idx as int]);
                assert(sub.drop_first() =~= s@.subrange(idx + 1, len as int));
            }
            idx = idx + 1;
        }
        let ghost core = s@.subrange(idx as int, len as int);
        proof {
            assert(strip_zeros(core) == core);
            assert(strip_zeros(rest) == core);
        }
        if idx == len {
            proof {
                assert(core.len() == 0);
            }
            return Some(Number { is_negative: false, digits: Vec::new() });
        }
        proof {
            assert(core[0] == s@[idx as int]);
            assert(core[0] != '0');
        }
        let mut digits: Vec<u8> = Vec::new();
        let mut j: usize = idx;
        while j < len
            invariant
                idx <= j <= len,
                idx < len,
                len == s@.len(),
                s@.len() > 0,
                strip_sign(s@) == (neg, s@.subrange(sidx as int, len as int)),
                sidx <= idx,
                core == s@.subrange(idx as int, len as int),
                core == strip_zeros(s@.subrange(sidx as int, len as int)),
                core[0] != '0',
                digits@ == digit_vals(core.take(j - idx)),
                forall|m: int| 0 <= m < j - idx ==> is_digit_char(core[m]),
            decreases len - j,
        {
            let c = s.get_char(j);
            let cu = c as u32;
            proof {
                assert(core[j - idx] == s@[j as int]);
            }
            if cu < 48 || cu > 57 {
                proof {
                    assert(!is_digit_char(core[j - idx]));
                    assert(!all_digits(core));
                    assert(core.len() > 0);
                }
                return None;
            }
            let d: u8 = (cu - 48) as u8;
            digits.push(d);
            proof {
                assert(core.take(j - idx + 1) =~= core.take(j - idx).push(core[j - idx]));
                assert(digit_vals(core.take(j - idx + 1)) =~= digit_vals(core.take(j - idx)).push(
                    digit_val(core[j - idx]),
                ));
            }
            j = j + 1;
        }
        let r = Number { is_negative: neg, digits };
        proof {
            assert(core.take(len - idx) =~= core);
            assert(r.digits@ == digit_vals(core));
            assert(all_digits(core));
            assert(forall|m: int|
                0 <= m < digit_vals(core).len() ==> #[trigger] digit_vals(core)[m] == digit_val(
                    core[m],
                ));
            assert(digits_lt10(r.digits@));
            assert(digit_val(core[0]) != 0);
            assert(core.len() > 0);
            assert(parse_number(s@) == Some((neg, digit_vals(core))));
        }
        Some(r)
    }

    /// Parses a numeral after trimming surrounding whitespace.
    pub fn from_str(s: &str) -> (r: Option<Number>)
        ensures
            match r {
                Some(n) => parse_number(trim_of(s@)) == Some((n.is_negative, n.digits@)) && n.wf(),
                None => parse_number(trim_of(s@)) is None,
            },
    {
        Number::parse(str_trim(s))
    }
}

/// What trimming surrounding whitespace leaves of a string; fixed by the
/// characters alone.
pub uninterp spec fn trim_of(s: Seq<char>) -> Seq<char>;

/// Relies on `str::trim`: the slice left after removing leading and
/// trailing whitespace is a function of the characters alone.
#[verifier::external_body]
fn str_trim(s: &str) -> (r: &str)
    ensures
        r@ == trim_of(s@),
{
    s.trim()
}

} // verus!
