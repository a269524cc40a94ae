//! Trusted window onto the money-formatting crate: the ISO minor-unit
//! lookup and the locale rendering of an amount. Both calls are functions of
//! their text arguments alone (the crate's tables are fixed), so their
//! results are named rather than restated.

use core::str::FromStr;

use vstd::prelude::*;

verus! {

/// The minor-unit exponent that the formatting crate's ISO table records
/// for a code, by exact match; `None` when the code is not in the table.
pub uninterp spec fn iso_exponent_of(code: Seq<char>) -> Option<u32>;

/// What the formatting crate renders for the given amount text in the given
/// currency's conventions (symbol, placement, separators, minor units);
/// `None` when the code is not in the ISO table or the amount text is
/// beyond what the crate's decimal type parses.
pub uninterp spec fn money_text(code: Seq<char>, amount: Seq<char>) -> Option<Seq<char>>;

/// Relies on `rusty_money::iso::find`: a fixed table lookup by exact code
/// text; the `exponent` field of the entry found is the currency's
/// minor-unit count.
#[verifier::external_body]
pub fn iso_exponent(code: &str) -> (r: Option<u32>)
    ensures
        r == iso_exponent_of(code@),
{
    rusty_money::iso::find(code).map(|c| c.exponent)
}

/// Relies on `rusty_money::iso::find`, `rust_decimal::Decimal::from_str`
/// and the `Display` of `rusty_money::Money`: all three are deterministic
/// in the code and amount texts, so the rendering is a single named result.
#[verifier::external_body]
pub fn format_money(code: &str, amount: &str) -> (r: Option<String>)
    ensures
        r is Some == money_text(code@, amount@) is Some,
        r matches Some(s) ==> money_text(code@, amount@) == Some(s@),
{
    let currency = rusty_money::iso::find(code)?;
    let dec = rust_decimal::Decimal::from_str(amount).ok()?;
    Some(rusty_money::Money::from_decimal(dec, currency).to_string())
}

} // verus!
