use vstd::prelude::*;
use vstd::utf8::is_ascii_chars;

verus! {

/// Upper-case form of an ASCII character; any other character is kept.
pub open spec fn ascii_upper(c: char) -> char {
    if 'a' <= c && c <= 'z' {
        (((c as u32) - 32) as u8) as char
    } else {
        c
    }
}

/// Every `a`..=`z` of `s` upper-cased.
pub open spec fn ascii_uppercased(s: Seq<char>) -> Seq<char> {
    s.map_values(|c: char| ascii_upper(c))
}

/// Every space of `s` turned into an underscore.
pub open spec fn spaces_to_underscores(s: Seq<char>) -> Seq<char> {
    s.map_values(|c: char| if c == ' ' { '_' } else { c })
}

/// The decimal digit for `d < 10`.
pub open spec fn digit_char(d: nat) -> char {
    seq!['0', '1', '2', '3', '4', '5', '6', '7', '8', '9'][d as int]
}

/// Decimal rendering of a natural number, without sign or leading zeros.
pub open spec fn decimal(n: nat) -> Seq<char>
    decreases n,
{
    if n < 10 {
        seq![digit_char(n)]
    } else {
        decimal(n / 10).push(digit_char(n % 10))
    }
}

/// Relies on str::to_uppercase: on ASCII text it maps `a`..=`z` to
/// `A`..=`Z` and keeps every other character.
#[verifier::external_body]
pub(crate) fn to_uppercase(s: &str) -> (r: String)
    requires
        is_ascii_chars(s@),
    ensures
        r@ == ascii_uppercased(s@),
{
    s.to_uppercase()
}

/// Relies on str::replace with a char pattern: every `' '` is replaced by
/// `"_"`, every other character is kept.
#[verifier::external_body]
pub(crate) fn replace_spaces(s: &str) -> (r: String)
    ensures
        r@ == spaces_to_underscores(s@),
{
    s.replace(' ', "_")
}

/// Relies on u64's `ToString` (its `Display`): the decimal form of `n`.
#[verifier::external_body]
pub(crate) fn decimal_string(n: u64) -> (r: String)
    ensures
        r@ == decimal(n as nat),
{
    n.to_string()
}

/// A decimal rendering is made of ASCII digits only.
pub proof fn lemma_decimal_is_ascii(n: nat)
    ensures
        is_ascii_chars(decimal(n)),
    decreases n,
{
    if n >= 10 {
        lemma_decimal_is_ascii(n / 10);
        assert(is_ascii_chars(decimal(n / 10).push(digit_char(n % 10))));
    }
}

/// Upper-casing and replacing spaces keep ASCII text ASCII.
pub proof fn lemma_key_suffix_is_ascii(s: Seq<char>)
    requires
        is_ascii_chars(s),
    ensures
        is_ascii_chars(spaces_to_underscores(ascii_uppercased(s))),
{
    let u = ascii_uppercased(s);
    assert forall|i: int| 0 <= i < u.len() implies '\0' <= #[trigger] u[i] <= '\u{7f}' by {
        let c = s[i];
        if 'a' <= c && c <= 'z' {
            assert(((c as u32) - 32) < 128);
        }
    }
}

} // verus!
