//! Decimal text of integers, as `format!` writes them, for messages and
//! generated shader source.

use vstd::prelude::*;

verus! {

/// Decimal digits of `n`, most significant first.
pub open spec fn decimal(n: nat) -> Seq<char>
    decreases n,
{
    if n < 10 {
        seq![(48 + n) as char]
    } else {
        decimal(n / 10).push((48 + n % 10) as char)
    }
}

/// `format!` of `head`, the decimal text of `n` (`Display` of an integer
/// writes its decimal digits), then `tail`.
#[verifier::external_body]
pub(crate) fn format_number_between(head: &str, n: usize, tail: &str) -> (s: String)
    ensures
        s@ == head@ + decimal(n as nat) + tail@,
{
    format!("{head}{n}{tail}")
}

} // verus!
