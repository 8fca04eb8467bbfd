//! Addresses of the Gmail API.

use vstd::prelude::*;
use vstd::string::StringExecFns;

verus! {

/// The address of resource `s` of the Gmail API.
pub fn bu(s: &str) -> (r: String)
    ensures
        r@ == "https://www.googleapis.com/gmail/v1/"@ + s@,
{
    let mut u = String::from_str("https://www.googleapis.com/gmail/v1/");
    u.append(s);
    u
}

/// The address that batch requests go to.
pub fn bbu() -> (r: String)
    ensures
        r@ == "https://www.googleapis.com/batch/gmail/v1"@,
{
    String::from_str("https://www.googleapis.com/batch/gmail/v1")
}

/// The digit `d` as a one-character string.
fn digit_str(d: u64) -> (r: &'static str)
    requires
        d < 10,
    ensures
        r@ == seq![((d + 48) as u8) as char],
{
    proof {
        reveal_strlit("0");
        reveal_strlit("1");
        reveal_strlit("2");
        reveal_strlit("3");
        reveal_strlit("4");
        reveal_strlit("5");
        reveal_strlit("6");
        reveal_strlit("7");
        reveal_strlit("8");
        reveal_strlit("9");
    }
    if d == 0 {
        "0"
    } else if d == 1 {
        "1"
    } else if d == 2 {
        "2"
    } else if d == 3 {
        "3"
    } else if d == 4 {
        "4"
    } else if d == 5 {
        "5"
    } else if d == 6 {
        "6"
    } else if d == 7 {
        "7"
    } else if d == 8 {
        "8"
    } else {
        "9"
    }
}

/// The decimal spelling of `n` as text.
pub open spec fn decimal_text(n: nat) -> Seq<char> {
    crate::text::decimal(n).map_values(|b: u8| b as char)
}

/// Writes `n` in decimal after `out`, as `to_string` would spell it.
pub fn append_decimal(out: &mut String, n: u64)
    ensures
        final(out)@ == old(out)@ + decimal_text(n as nat),
    decreases n,
{
    if n >= 10 {
        append_decimal(out, n / 10);
    }
    out.append(digit_str(n % 10));
    proof {
        let d = crate::text::decimal(n as nat);
        if n >= 10 {
            assert(d == crate::text::decimal((n / 10) as nat).push(((n % 10) + 48) as u8));
            assert(decimal_text(n as nat) =~= decimal_text((n / 10) as nat) + seq![
                (((n % 10) + 48) as u8) as char,
            ]);
        } else {
            assert(decimal_text(n as nat) =~= seq![(((n % 10) + 48) as u8) as char]);
        }
    }
}

} // verus!
