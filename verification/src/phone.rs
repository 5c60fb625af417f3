//! Phone-number normalization: a total, lossy canonicalization of an
//! arbitrary string to exactly ten ASCII digits.

use vstd::prelude::*;
use vstd::string::StrSliceExecFns;
use vstd::string::StringExecFns;
use crate::strutil::is_digit;

verus! {

/// The subsequence of ASCII digit characters of `s`, in order.
pub open spec fn digits_of(s: Seq<char>) -> Seq<char>
    decreases s.len(),
{
    if s.len() == 0 {
        Seq::empty()
    } else if is_digit(s.last()) {
        digits_of(s.drop_last()).push(s.last())
    } else {
        digits_of(s.drop_last())
    }
}

/// A run of `n` ASCII `'0'` characters.
pub open spec fn zeroes(n: int) -> Seq<char> {
    Seq::new(n as nat, |i: int| '0')
}

/// The canonical ten-digit form of a phone-number string: keep the digits;
/// a 10-digit result stands; an 11-digit result led by `'1'` loses that
/// digit; any longer result keeps its last ten digits; anything shorter is
/// left-padded with `'0'`.
pub open spec fn normalize_spec(s: Seq<char>) -> Seq<char> {
    let d = digits_of(s);
    if d.len() == 10 {
        d
    } else if d.len() == 11 && d[0] == '1' {
        d.subrange(1, 11)
    } else if d.len() > 10 {
        d.subrange(d.len() - 10, d.len() as int)
    } else {
        zeroes(10 - d.len()) + d
    }
}

pub proof fn lemma_digits_of_all_digits(s: Seq<char>)
    ensures
        forall|i: int| 0 <= i < digits_of(s).len() ==> is_digit(#[trigger] digits_of(s)[i]),
    decreases s.len(),
{
    if s.len() > 0 {
        lemma_digits_of_all_digits(s.drop_last());
        let d = digits_of(s.drop_last());
        assert forall|i: int| 0 <= i < digits_of(s).len() implies is_digit(
            #[trigger] digits_of(s)[i],
        ) by {
            if i < d.len() {
                assert(digits_of(s)[i] == d[i]);
            }
        }
    }
}

/// A sequence made only of digits is its own digit subsequence.
pub proof fn lemma_digits_of_identity(s: Seq<char>)
    requires
        forall|i: int| 0 <= i < s.len() ==> is_digit(#[trigger] s[i]),
    ensures
        digits_of(s) == s,
    decreases s.len(),
{
    if s.len() == 0 {
        assert(digits_of(s) =~= s);
    } else {
        lemma_digits_of_identity(s.drop_last());
        assert(digits_of(s) =~= s);
    }
}

/// The normalized form is always exactly ten ASCII digits.
pub proof fn lemma_normalize_ten_digits(s: Seq<char>)
    ensures
        normalize_spec(s).len() == 10,
        forall|i: int| 0 <= i < 10 ==> is_digit(#[trigger] normalize_spec(s)[i]),
{
    lemma_digits_of_all_digits(s);
}

/// Normalization is idempotent.
pub proof fn lemma_normalize_idempotent(s: Seq<char>)
    ensures
        normalize_spec(normalize_spec(s)) == normalize_spec(s),
{
    let r = normalize_spec(s);
    lemma_normalize_ten_digits(s);
    lemma_digits_of_identity(r);
}

/// Strips every character that is not an ASCII digit.
fn digit_chars(number: &str) -> (r: String)
    ensures
        r@ == digits_of(number@),
{
    let n = number.unicode_len();
    let mut r = String::new();
    let mut i: usize = 0;
    while i < n
        invariant
            n == number@.len(),
            i <= n,
            r@ == digits_of(number@.take(i as int)),
        decreases n - i,
    {
        let c = number.get_char(i);
        proof {
            assert(number@.take(i + 1).drop_last() =~= number@.take(i as int));
            assert(number@.take(i + 1).last() == number@[i as int]);
        }
        if '0' <= c && c <= '9' {
            let sub = number.substring_char(i, i + 1);
            r.append(sub);
            proof {
                assert(r@ =~= digits_of(number@.take(i + 1)));
            }
        }
        i = i + 1;
    }
    proof {
        assert(number@.take(n as int) =~= number@);
    }
    r
}

/// Canonicalizes an arbitrary phone-number string to exactly ten ASCII
/// digits, as `normalize_spec` states. Total: every input is accepted.
pub fn normalize_phone_number(number: &str) -> (r: String)
    ensures
        r@ == normalize_spec(number@),
        r@.len() == 10,
{
    proof {
        lemma_normalize_ten_digits(number@);
    }
    let digits = digit_chars(number);
    let len = digits.as_str().unicode_len();
    if len == 10 {
        return digits;
    }
    if len == 11 && digits.as_str().get_char(0) == '1' {
        let rest = digits.as_str().substring_char(1, 11);
        return rest.to_owned();
    }
    if len > 10 {
        let rest = digits.as_str().substring_char(len - 10, len);
        return rest.to_owned();
    }
    let mut padded = String::new();
    let mut k: usize = 0;
    while k < 10 - len
        invariant
            len < 10 || (len == 10 && k == 0),
            k <= 10 - len,
            padded@ =~= zeroes(k as int),
        decreases 10 - len - k,
    {
        padded.append("0");
        proof {
            reveal_strlit("0");
            assert(padded@ =~= zeroes(k + 1));
        }
        k = k + 1;
    }
    let r = padded.concat(digits.as_str());
    proof {
        assert(r@ =~= zeroes(10 - digits@.len()) + digits@);
    }
    r
}

} // verus!
