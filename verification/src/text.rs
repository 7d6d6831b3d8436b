//! Building text: writing numbers in decimal.
use vstd::prelude::*;
use vstd::string::StringExecFns;

verus! {

/// The decimal digit of `d`, for `d < 10`, as text.
pub open spec fn digit_text(d: nat) -> Seq<char> {
    if d == 0 { "0"@ }
    else if d == 1 { "1"@ }
    else if d == 2 { "2"@ }
    else if d == 3 { "3"@ }
    else if d == 4 { "4"@ }
    else if d == 5 { "5"@ }
    else if d == 6 { "6"@ }
    else if d == 7 { "7"@ }
    else if d == 8 { "8"@ }
    else { "9"@ }
}

/// `n` written in decimal, without leading zeros (`0` is `"0"`).
pub open spec fn decimal(n: nat) -> Seq<char>
    decreases n,
{
    if n < 10 {
        digit_text(n)
    } else {
        decimal(n / 10) + digit_text(n % 10)
    }
}

/// Appends `n` in decimal to `text`.
pub fn push_decimal(text: &mut String, n: usize)
    ensures
        final(text)@ == old(text)@ + decimal(n as nat),
    decreases n,
{
    if n >= 10 {
        push_decimal(text, n / 10);
    }
    let d = n % 10;
    if d == 0 { text.append("0") }
    else if d == 1 { text.append("1") }
    else if d == 2 { text.append("2") }
    else if d == 3 { text.append("3") }
    else if d == 4 { text.append("4") }
    else if d == 5 { text.append("5") }
    else if d == 6 { text.append("6") }
    else if d == 7 { text.append("7") }
    else if d == 8 { text.append("8") }
    else { text.append("9") }
    proof {
        if n >= 10 {
            assert(decimal(n as nat) == decimal((n / 10) as nat) + digit_text((n % 10) as nat));
        }
    }
}

} // verus!
