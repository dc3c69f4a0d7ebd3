//! Numbers as text.

use vstd::prelude::*;

verus! {

/// The decimal digit for a number below ten.
pub open spec fn digit(d: nat) -> char {
    (48 + d) as char
}

/// A number in decimal digits, without sign or leading zeros.
pub open spec fn digits(n: nat) -> Seq<char>
    decreases n,
{
    if n < 10 {
        seq![digit(n)]
    } else {
        digits(n / 10).push(digit(n % 10))
    }
}

/// `u64`'s `to_string`: the number in decimal digits.
#[verifier::external_body]
pub(crate) fn decimal(n: u64) -> (text: String)
    ensures
        text@ == digits(n as nat),
{
    n.to_string()
}

/// The number that a text of decimal digits stands for.
pub open spec fn number(text: Seq<char>) -> nat
    decreases text.len(),
{
    if text.len() == 0 {
        0
    } else {
        (number(text.drop_last()) * 10 + (text.last() as nat - 48)) as nat
    }
}

/// The digits of a number stand for that number.
pub proof fn lemma_number_of_digits(n: nat)
    ensures
        number(digits(n)) == n,
    decreases n,
{
    if n < 10 {
        let text = seq![digit(n)];
        assert(text.drop_last() =~= Seq::<char>::empty());
        assert(number(text.drop_last()) == 0);
    } else {
        let text = digits(n / 10).push(digit(n % 10));
        lemma_number_of_digits(n / 10);
        assert(text.drop_last() =~= digits(n / 10));
    }
}

/// Different numbers have different digits, also behind a common prefix.
pub proof fn lemma_digits_differ(prefix: Seq<char>, a: nat, b: nat)
    requires
        a != b,
    ensures
        prefix + digits(a) != prefix + digits(b),
{
    lemma_number_of_digits(a);
    lemma_number_of_digits(b);
    if prefix + digits(a) == prefix + digits(b) {
        let whole = prefix + digits(a);
        assert(whole.subrange(prefix.len() as int, whole.len() as int) =~= digits(a));
        assert(whole.subrange(prefix.len() as int, whole.len() as int) =~= digits(b));
    }
}

} // verus!
