//! Small verified text helpers: character/string conversion and decimal
//! rendering of unsigned integers.

use vstd::prelude::*;

verus! {

broadcast use vstd::string::axiom_spec_iter;

/// Equality of two string slices by their character sequences.
pub(crate) fn str_eq(a: &str, b: &str) -> (r: bool)
    ensures
        r == (a@ == b@),
{
    let x = a.to_owned();
    let y = b.to_owned();
    x == y
}

/// Collects the characters of a string slice into a vector.
pub(crate) fn string_to_chars(s: &str) -> (r: Vec<char>)
    ensures
        r@ == s@,
{
    let mut v: Vec<char> = Vec::new();
    for c in it: s.chars()
        invariant
            it.seq() == s@,
            v@ == it.seq().take(it.index() as int),
    {
        v.push(c);
    }
    proof {
        assert(v@ =~= s@);
    }
    v
}

/// Relies on `String::from_iter` over a copied character iterator: the
/// resulting string holds exactly the given characters in order.
#[verifier::external_body]
pub(crate) fn chars_to_string(v: &Vec<char>) -> (r: String)
    ensures
        r@ == v@,
{
    v.iter().collect()
}

/// Decimal digit character for a value below ten.
pub open spec fn digit_char(d: int) -> char {
    if d == 0 {
        '0'
    } else if d == 1 {
        '1'
    } else if d == 2 {
        '2'
    } else if d == 3 {
        '3'
    } else if d == 4 {
        '4'
    } else if d == 5 {
        '5'
    } else if d == 6 {
        '6'
    } else if d == 7 {
        '7'
    } else if d == 8 {
        '8'
    } else {
        '9'
    }
}

/// The decimal numeral of a natural number, most significant digit first.
pub open spec fn dec_str(n: nat) -> Seq<char>
    decreases n,
{
    if n < 10 {
        seq![digit_char(n as int)]
    } else {
        dec_str(n / 10) + seq![digit_char((n % 10) as int)]
    }
}

/// Renders an unsigned integer as its decimal numeral.
pub fn u64_to_string(n: u64) -> (r: String)
    ensures
        r@ == dec_str(n as nat),
{
    let mut digits: Vec<char> = Vec::new();
    let mut m: u64 = n;
    if m == 0 {
        digits.push('0');
        assert(digits@ =~= dec_str(0));
    } else {
        while m > 0
            invariant
                dec_str(n as nat) =~= (if m > 0 {
                    dec_str(m as nat)
                } else {
                    Seq::<char>::empty()
                }) + digits@.reverse(),
            decreases m,
        {
            let d: u64 = m % 10;
            let ghost old_digits = digits@;
            digits.push(digit_of_u64(d));
            m = m / 10;
            proof {
                assert(digits@ =~= old_digits.push(digit_char(d as int)));
                assert(digits@.reverse() =~= seq![digit_char(d as int)] + old_digits.reverse());
            }
        }
        let mut rev: Vec<char> = Vec::new();
        let mut i: usize = digits.len();
        while i > 0
            invariant
                i <= digits@.len(),
                rev@ =~= digits@.subrange(i as int, digits@.len() as int).reverse(),
            decreases i,
        {
            i = i - 1;
            let ghost old_rev = rev@;
            rev.push(digits[i]);
            proof {
                assert(rev@ =~= digits@.subrange(i as int, digits@.len() as int).reverse());
            }
        }
        proof {
            assert(rev@ =~= digits@.reverse());
        }
        digits = rev;
    }
    chars_to_string(&digits)
}

/// The character of a single decimal digit.
fn digit_of_u64(d: u64) -> (c: char)
    requires
        d < 10,
    ensures
        c == digit_char(d as int),
{
    if d == 0 {
        '0'
    } else if d == 1 {
        '1'
    } else if d == 2 {
        '2'
    } else if d == 3 {
        '3'
    } else if d == 4 {
        '4'
    } else if d == 5 {
        '5'
    } else if d == 6 {
        '6'
    } else if d == 7 {
        '7'
    } else if d == 8 {
        '8'
    } else {
        '9'
    }
}

} // verus!
