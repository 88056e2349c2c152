//! Decimal rendering and parsing of integers, with a proved round trip.

use vstd::prelude::*;
use vstd::seq_lib::*;

verus! {

pub open spec fn is_digit(c: char) -> bool {
    '0' <= c && c <= '9'
}

pub open spec fn digit_val(c: char) -> int {
    c as int - '0' as int
}

pub open spec fn digit_char(d: int) -> char
    recommends
        0 <= d <= 9,
{
    (d + '0' as int) as char
}

pub open spec fn all_digits(s: Seq<char>) -> bool {
    forall|i: int| 0 <= i < s.len() ==> is_digit(#[trigger] s[i])
}

/// The value of a digit string, most significant digit first.
pub open spec fn str_to_nat(s: Seq<char>) -> int
    decreases s.len(),
{
    if s.len() == 0 {
        0
    } else {
        str_to_nat(s.drop_last()) * 10 + digit_val(s.last())
    }
}

/// The canonical decimal rendering of a non-negative integer.
pub open spec fn nat_to_str(n: int) -> Seq<char>
    recommends
        n >= 0,
    decreases n,
{
    if n <= 9 {
        seq![digit_char(if n >= 0 { n } else { 0 })]
    } else {
        nat_to_str(n / 10).push(digit_char(n % 10))
    }
}

/// The canonical decimal rendering of an integer: a `-` sign for negative
/// values, then the digits.
pub open spec fn int_to_str(n: int) -> Seq<char> {
    if n < 0 {
        seq!['-'] + nat_to_str(-n)
    } else {
        nat_to_str(n)
    }
}

pub proof fn lemma_str_to_nat_nonneg(s: Seq<char>)
    requires
        all_digits(s),
    ensures
        str_to_nat(s) >= 0,
    decreases s.len(),
{
    if s.len() > 0 {
        assert(all_digits(s.drop_last()));
        lemma_str_to_nat_nonneg(s.drop_last());
        assert(str_to_nat(s.drop_last()) * 10 >= 0) by (nonlinear_arith)
            requires str_to_nat(s.drop_last()) >= 0;
    }
}

pub proof fn lemma_nat_to_str_digits(n: int)
    requires
        n >= 0,
    ensures
        all_digits(nat_to_str(n)),
        nat_to_str(n).len() >= 1,
    decreases n,
{
    if n <= 9 {
    } else {
        lemma_nat_to_str_digits(n / 10);
    }
}

/// Rendering then reading a non-negative integer gives the integer back.
pub proof fn lemma_nat_round_trip(n: int)
    requires
        n >= 0,
    ensures
        str_to_nat(nat_to_str(n)) == n,
    decreases n,
{
    if n <= 9 {
        let s = nat_to_str(n);
        assert(s =~= seq![digit_char(n)]);
        assert(s.drop_last() =~= Seq::<char>::empty());
        assert(digit_val(digit_char(n)) == n);
        assert(str_to_nat(Seq::<char>::empty()) == 0);
        assert(str_to_nat(s) == str_to_nat(s.drop_last()) * 10 + digit_val(s.last()));
    } else {
        lemma_nat_round_trip(n / 10);
        let s = nat_to_str(n);
        assert(s.drop_last() =~= nat_to_str(n / 10));
        assert(digit_val(digit_char(n % 10)) == n % 10);
        assert(str_to_nat(s) == (n / 10) * 10 + n % 10);
        assert((n / 10) * 10 + n % 10 == n) by (nonlinear_arith)
            requires n >= 0;
    }
}

/// The value of a digit string only grows as digits are appended.
pub proof fn lemma_str_to_nat_monotone(s: Seq<char>, i: int)
    requires
        all_digits(s),
        0 <= i <= s.len(),
    ensures
        str_to_nat(s) >= str_to_nat(s.take(i)),
    decreases s.len() - i,
{
    if i < s.len() {
        lemma_str_to_nat_monotone(s, i + 1);
        assert(s.take(i + 1).drop_last() =~= s.take(i));
        assert(str_to_nat(s.take(i + 1)) == str_to_nat(s.take(i)) * 10 + digit_val(s[i]));
        assert(all_digits(s.take(i))) by {
            assert(forall|j: int| 0 <= j < i ==> is_digit(#[trigger] s.take(i)[j]));
        }
        lemma_str_to_nat_nonneg(s.take(i));
        assert(str_to_nat(s.take(i)) * 10 >= str_to_nat(s.take(i))) by (nonlinear_arith)
            requires str_to_nat(s.take(i)) >= 0;
        assert(is_digit(s[i]));
    } else {
        assert(s.take(i) =~= s);
    }
}

/// Renders a `u64` in decimal.
pub fn u64_to_string(n: u64) -> (r: Vec<char>)
    ensures
        r@ == nat_to_str(n as int),
        all_digits(r@),
{
    let mut digits: Vec<char> = Vec::new();
    let mut m: u64 = n;
    while m > 9
        invariant
            nat_to_str(n as int) == nat_to_str(m as int) + digits@.reverse(),
        decreases m,
    {
        let ghost oldm = m as int;
        let ghost olddigits = digits@;
        let d: u64 = m % 10;
        let c: char = (('0' as u8) + (d as u8)) as char;
        proof {
            assert(c == digit_char(d as int));
        }
        digits.push(c);
        m = m / 10;
        proof {
            assert(nat_to_str(oldm) =~= nat_to_str(m as int).push(c));
            assert(digits@.reverse() =~= seq![c] + olddigits.reverse());
            assert(nat_to_str(m as int) + digits@.reverse() =~= nat_to_str(oldm)
                + olddigits.reverse());
        }
    }
    let ghost olddigits = digits@;
    let c: char = (('0' as u8) + (m as u8)) as char;
    proof {
        assert(c == digit_char(m as int));
        assert(nat_to_str(m as int) =~= seq![c]);
    }
    digits.push(c);
    proof {
        assert(digits@.reverse() =~= seq![c] + olddigits.reverse());
        assert(nat_to_str(n as int) =~= digits@.reverse());
    }
    let mut r: Vec<char> = Vec::new();
    let mut i: usize = digits.len();
    while i > 0
        invariant
            i <= digits@.len(),
            r@ =~= digits@.subrange(i as int, digits@.len() as int).reverse(),
        decreases i,
    {
        i -= 1;
        r.push(digits[i]);
        proof {
            assert(digits@.subrange(i as int, digits@.len() as int) =~= digits@.subrange(
                i + 1,
                digits@.len() as int,
            ).insert(0, digits@[i as int]));
            assert(digits@.subrange(i as int, digits@.len() as int).reverse() =~= digits@
                .subrange(i + 1, digits@.len() as int).reverse().push(digits@[i as int]));
        }
    }
    proof {
        assert(digits@.subrange(0, digits@.len() as int) =~= digits@);
        lemma_nat_to_str_digits(n as int);
    }
    r
}


/// What a decimal integer literal denotes: an optional `-` sign, then at
/// least one digit. Anything else denotes nothing.
pub open spec fn parse_int_str(s: Seq<char>) -> Option<int> {
    if s.len() >= 1 && s[0] == '-' {
        let d = s.skip(1);
        if d.len() > 0 && all_digits(d) {
            Some(-str_to_nat(d))
        } else {
            None
        }
    } else if s.len() > 0 && all_digits(s) {
        Some(str_to_nat(s))
    } else {
        None
    }
}

/// `parse_int_str`, restricted to values an `i64` can hold.
pub open spec fn parse_i64_str(s: Seq<char>) -> Option<i64> {
    match parse_int_str(s) {
        Some(v) => if i64::MIN <= v <= i64::MAX {
            Some(v as i64)
        } else {
            None
        },
        None => None,
    }
}

/// Reads a decimal `i64` from a character list: the whole list must be one
/// integer literal in range.
pub fn parse_i64(s: &Vec<char>) -> (r: Option<i64>)
    ensures
        r == parse_i64_str(s@),
{
    let len = s.len();
    if len == 0 {
        return None;
    }
    let neg = s[0] == '-';
    let start: usize = if neg { 1 } else { 0 };
    if start == len {
        return None;
    }
    let ghost d = if neg { s@.skip(1) } else { s@ };
    proof {
        if !neg {
            assert(d =~= s@.skip(0));
        }
    }
    let limit: u64 = if neg { 9223372036854775808 } else { 9223372036854775807 };
    let mut acc: u64 = 0;
    let mut i: usize = start;
    while i < len
        invariant
            start <= i <= len,
            len == s@.len(),
            len >= 1,
            neg == (s@[0] == '-'),
            start == if neg { 1int } else { 0int },
            neg ==> d == s@.skip(1),
            !neg ==> d == s@,
            d.len() == len - start,
            forall|j: int| 0 <= j < i - start ==> is_digit(#[trigger] d[j]),
            acc == str_to_nat(d.take(i - start)),
            acc <= limit,
            limit == if neg { 9223372036854775808u64 } else { 9223372036854775807u64 },
        decreases len - i,
    {
        let c = s[i];
        proof {
            assert(d[i - start] == s@[i as int]);
        }
        if !('0' <= c && c <= '9') {
            proof {
                assert(!is_digit(d[i - start]));
                assert(!all_digits(d));
            }
            return None;
        }
        let dv: u64 = (c as u32 - 48) as u64;
        proof {
            assert(dv == digit_val(c));
        }
        if acc > (limit - dv) / 10 {
            proof {
                assert(d.take(i - start + 1).drop_last() =~= d.take(i - start));
                assert(d.take(i - start + 1).last() == d[i - start]);
                assert(str_to_nat(d.take(i - start + 1)) == acc * 10 + dv);
                assert(acc * 10 + dv > limit) by (nonlinear_arith)
                    requires
                        acc > (limit - dv) / 10,
                        0 <= dv <= 9,
                        acc >= 0,
                        limit >= 9,
                ;
                assert(all_digits(d.take(i - start + 1))) by {
                    assert(forall|j: int| 0 <= j < i - start + 1
                        ==> is_digit(#[trigger] d.take(i - start + 1)[j]));
                }
                if all_digits(d) {
                    lemma_str_to_nat_monotone(d, i - start + 1);
                    assert(str_to_nat(d) > limit);
                }
            }
            return None;
        }
        proof {
            assert(acc * 10 + dv <= limit) by (nonlinear_arith)
                requires
                    acc <= (limit - dv) / 10,
                    0 <= dv <= 9,
                    acc >= 0,
                    limit >= 9,
            ;
            assert(d.take(i - start + 1).drop_last() =~= d.take(i - start));
            assert(d.take(i - start + 1).last() == d[i - start]);
        }
        acc = acc * 10 + dv;
        i += 1;
    }
    proof {
        assert(d.take(len - start) =~= d);
        assert(all_digits(d));
    }
    if neg {
        if acc == 9223372036854775808 {
            Some(i64::MIN)
        } else {
            Some(-(acc as i64))
        }
    } else {
        Some(acc as i64)
    }
}

/// Renders an `i64` in decimal, sign included.
pub fn i64_to_string(n: i64) -> (r: Vec<char>)
    ensures
        r@ == int_to_str(n as int),
{
    if n >= 0 {
        let r = u64_to_string(n as u64);
        r
    } else {
        let mag: u64 = if n == i64::MIN {
            9223372036854775808
        } else {
            (-n) as u64
        };
        let digits = u64_to_string(mag);
        let mut r: Vec<char> = Vec::new();
        r.push('-');
        let mut i: usize = 0;
        let dn = digits.len();
        while i < dn
            invariant
                i <= dn,
                dn == digits@.len(),
                r@ =~= seq!['-'] + digits@.take(i as int),
            decreases dn - i,
        {
            r.push(digits[i]);
            proof {
                assert(r@ =~= seq!['-'] + digits@.take(i + 1));
            }
            i += 1;
        }
        proof {
            assert(digits@.take(dn as int) =~= digits@);
            assert(r@ =~= seq!['-'] + nat_to_str(-(n as int)));
        }
        r
    }
}

} // verus!
