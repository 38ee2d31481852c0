//! Byte counts written for people to read.
use vstd::prelude::*;

verus! {

/// The decimal digit `d` as a character.
pub open spec fn digit_char(d: nat) -> char {
    ((d + 48) as u8) as char
}

/// The decimal notation of `n`, without leading zeros.
pub open spec fn decimal(n: nat) -> Seq<char>
    decreases n,
{
    if n < 10 {
        seq![digit_char(n)]
    } else {
        decimal(n / 10).push(digit_char(n % 10))
    }
}

/// The unit a byte count is shown in: the largest of bytes, kilobytes,
/// megabytes, gigabytes and terabytes that it reaches, by powers of 1000.
pub open spec fn unit_factor(bytes: nat) -> nat {
    if bytes < 1_000 {
        1
    } else if bytes < 1_000_000 {
        1_000
    } else if bytes < 1_000_000_000 {
        1_000_000
    } else if bytes < 1_000_000_000_000 {
        1_000_000_000
    } else {
        1_000_000_000_000
    }
}

/// The name of the unit of `unit_factor(bytes)`.
pub open spec fn unit_name(bytes: nat) -> Seq<char> {
    if bytes < 1_000 {
        seq!['b']
    } else if bytes < 1_000_000 {
        seq!['K', 'b']
    } else if bytes < 1_000_000_000 {
        seq!['M', 'b']
    } else if bytes < 1_000_000_000_000 {
        seq!['G', 'b']
    } else {
        seq!['T', 'b']
    }
}

/// Relies on std's `format!` with `{}{}` on a `u64` and a `&str`: the
/// decimal digits of the number followed by the text.
#[verifier::external_body]
fn format_quantity(quantity: u64, unit: &str) -> (r: String)
    ensures
        r@ == decimal(quantity as nat) + unit@,
{
    format!("{}{}", quantity, unit)
}

/// A byte count in whole units, rounded down: `1500` is `1Kb`.
pub fn fmt_bytes(bytes: usize) -> (r: String)
    ensures
        r@ == decimal(bytes as nat / unit_factor(bytes as nat)) + unit_name(bytes as nat),
{
    let bytes: u64 = bytes as u64;
    let factor: u64;
    let unit: &str;
    if bytes < 1_000 {
        factor = 1;
        unit = "b";
        proof {
            reveal_strlit("b");
        }
    } else if bytes < 1_000_000 {
        factor = 1_000;
        unit = "Kb";
        proof {
            reveal_strlit("Kb");
        }
    } else if bytes < 1_000_000_000 {
        factor = 1_000_000;
        unit = "Mb";
        proof {
            reveal_strlit("Mb");
        }
    } else if bytes < 1_000_000_000_000 {
        factor = 1_000_000_000;
        unit = "Gb";
        proof {
            reveal_strlit("Gb");
        }
    } else {
        factor = 1_000_000_000_000;
        unit = "Tb";
        proof {
            reveal_strlit("Tb");
        }
    }
    assert(unit@ =~= unit_name(bytes as nat));
    format_quantity(bytes / factor, unit)
}

} // verus!
