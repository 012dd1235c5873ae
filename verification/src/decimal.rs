//! Decimal digits: their value when parsed and their rendering when printed.

use vstd::prelude::*;

use crate::chars::string_push;

verus! {

broadcast use vstd::seq::group_seq_axioms;

/// `c` is an ASCII decimal digit.
pub open spec fn is_digit(c: char) -> bool {
    '0' <= c && c <= '9'
}

/// Value of a decimal digit character.
pub open spec fn digit_value(c: char) -> nat {
    (c as int - '0' as int) as nat
}

/// Value of a sequence of decimal digits, most significant first.
pub open spec fn decimal_value(s: Seq<char>) -> nat
    decreases s.len(),
{
    if s.len() == 0 {
        0
    } else {
        decimal_value(s.drop_last()) * 10 + digit_value(s.last())
    }
}

/// The digit character for `d < 10`.
pub open spec fn digit_char(d: nat) -> char {
    (d + '0' as int) as char
}

/// Shortest decimal rendering of `n` (no sign, no leading zeros).
pub open spec fn decimal_digits(n: nat) -> Seq<char>
    decreases n,
{
    if n < 10 {
        seq![digit_char(n)]
    } else {
        decimal_digits(n / 10).push(digit_char(n % 10))
    }
}

/// Decimal rendering of a signed integer: a leading `-` for negatives.
pub open spec fn signed_digits(n: int) -> Seq<char> {
    if n < 0 {
        seq!['-'] + decimal_digits((-n) as nat)
    } else {
        decimal_digits(n as nat)
    }
}

/// Rendering and parsing digits are inverse, and renderings consist of digits.
pub proof fn lemma_decimal_digits(n: nat)
    ensures
        decimal_value(decimal_digits(n)) == n,
        decimal_digits(n).len() >= 1,
        forall|i: int| 0 <= i < decimal_digits(n).len() ==> is_digit(#[trigger] decimal_digits(n)[i]),
        n > 0 ==> decimal_digits(n)[0] != '0',
        n == 0 ==> decimal_digits(n) == seq!['0'],
    decreases n,
{
    if n >= 10 {
        lemma_decimal_digits(n / 10);
        let s = decimal_digits(n);
        assert(s.drop_last() =~= decimal_digits(n / 10));
        assert(s[0] == decimal_digits(n / 10)[0]);
        assert(digit_char(n % 10) as int == n % 10 + '0' as int);
        assert(digit_value(s.last()) == n % 10);
    } else {
        assert(digit_value(digit_char(n)) == n);
        assert(seq![digit_char(n)].drop_last() =~= Seq::<char>::empty());
        assert(decimal_value(Seq::<char>::empty()) == 0);
        assert(seq![digit_char(n)].last() == digit_char(n));
        assert(digit_char(n) as int == n + '0' as int);
    }
}

/// Extending a digit sequence by one digit never decreases its value.
pub proof fn lemma_decimal_value_push(s: Seq<char>, c: char)
    requires
        is_digit(c),
    ensures
        decimal_value(s.push(c)) == decimal_value(s) * 10 + digit_value(c),
        decimal_value(s.push(c)) >= decimal_value(s),
{
    assert(s.push(c).drop_last() =~= s);
}

/// Digit character for a value below ten.
pub fn digit_to_char(d: u8) -> (c: char)
    requires
        d < 10,
    ensures
        c == digit_char(d as nat),
        is_digit(c),
{
    (d + 48) as char
}

/// Appends the decimal rendering of `n` to `out`.
pub fn push_decimal(out: &mut String, n: u128)
    ensures
        final(out)@ == old(out)@ + decimal_digits(n as nat),
{
    let mut m: u128 = n;
    let mut rev: Vec<char> = Vec::new();
    while m >= 10
        invariant
            decimal_digits(n as nat) == decimal_digits(m as nat) + rev@.reverse(),
        decreases m,
    {
        let d = (m % 10) as u8;
        let c = digit_to_char(d);
        proof {
            assert(decimal_digits(m as nat) == decimal_digits((m / 10) as nat).push(
                digit_char((m % 10) as nat),
            ));
            assert(rev@.push(c).reverse() =~= seq![c] + rev@.reverse());
            assert(decimal_digits((m / 10) as nat).push(c) + rev@.reverse() =~= decimal_digits(
                (m / 10) as nat,
            ) + (seq![c] + rev@.reverse()));
        }
        rev.push(c);
        m = m / 10;
    }
    let first = digit_to_char(m as u8);
    string_push(out, first);
    let len = rev.len();
    let ghost base = old(out)@.push(first);
    let mut j: usize = 0;
    while j < len
        invariant
            j <= len,
            len == rev@.len(),
            out@ == base + rev@.reverse().take(j as int),
            base == old(out)@.push(first),
            decimal_digits(n as nat) == decimal_digits(m as nat) + rev@.reverse(),
            m < 10,
            first == digit_char(m as nat),
        decreases len - j,
    {
        let c = rev[len - 1 - j];
        proof {
            assert(rev@.reverse()[j as int] == rev@[len - 1 - j]);
            assert(rev@.reverse().take(j + 1) =~= rev@.reverse().take(j as int).push(c));
        }
        string_push(out, c);
        j = j + 1;
    }
    proof {
        assert(rev@.reverse().take(len as int) =~= rev@.reverse());
        assert(decimal_digits(m as nat) == seq![first]);
        assert(base + rev@.reverse() =~= old(out)@ + (seq![first] + rev@.reverse()));
    }
}

/// Appends the decimal rendering of a signed integer to `out`.
pub fn push_signed_decimal(out: &mut String, n: i128)
    ensures
        final(out)@ == old(out)@ + signed_digits(n as int),
{
    if n < 0 {
        string_push(out, '-');
        let mag: u128 = ((-(n + 1)) as u128) + 1;
        push_decimal(out, mag);
        proof {
            assert(old(out)@.push('-') + decimal_digits(mag as nat) =~= old(out)@ + (seq!['-']
                + decimal_digits(mag as nat)));
        }
    } else {
        push_decimal(out, n as u128);
    }
}

} // verus!
