//! Currencies a table can be denominated in, and their ledger parameters.
//!
//! All amounts are unsigned integers in the token's smallest unit
//! (one hundred-millionth of a whole token for both currencies).

use vstd::prelude::*;

verus! {

/// Fee charged by the ICP ledger for one transfer, in e8s.
pub const ICP_TRANSFER_FEE: u64 = 10_000;
/// Fee charged by the ckBTC ledger for one transfer, in satoshis.
pub const BTC_TRANSFER_FEE: u64 = 10;

/// Smallest withdrawal the table accepts, per currency.
pub const ICP_MIN_WITHDRAWAL: u64 = 100_000;
pub const BTC_MIN_WITHDRAWAL: u64 = 11;

/// Largest withdrawal the table accepts in one transaction, per currency.
pub const ICP_MAX_WITHDRAWAL: u64 = 10_000_000_000;
pub const BTC_MAX_WITHDRAWAL: u64 = 10_000_000;

/// Smallest withdrawal a currency accepts, as contracts state it.
pub open spec fn spec_min_withdrawal(c: Currency) -> int {
    if c is ICP {
        ICP_MIN_WITHDRAWAL as int
    } else {
        BTC_MIN_WITHDRAWAL as int
    }
}

/// Largest withdrawal a currency accepts, as contracts state it.
pub open spec fn spec_max_withdrawal(c: Currency) -> int {
    if c is ICP {
        ICP_MAX_WITHDRAWAL as int
    } else {
        BTC_MAX_WITHDRAWAL as int
    }
}

/// The token a table plays for.  Both tokens use eight decimals.
#[derive(Clone, Copy, Debug, PartialEq, Eq, Structural, Hash)]
pub enum Currency {
    ICP,
    BTC,
}

impl Currency {
    /// The ledger's transfer fee in smallest units.
    pub fn transfer_fee(&self) -> (r: u64)
        ensures
            r == if self is ICP { ICP_TRANSFER_FEE as int } else { BTC_TRANSFER_FEE as int },
    {
        match self {
            Currency::ICP => ICP_TRANSFER_FEE,
            Currency::BTC => BTC_TRANSFER_FEE,
        }
    }

    /// Smallest amount a withdrawal may move.
    pub fn min_withdrawal(&self) -> (r: u64)
        ensures
            r == if self is ICP { ICP_MIN_WITHDRAWAL as int } else { BTC_MIN_WITHDRAWAL as int },
    {
        match self {
            Currency::ICP => ICP_MIN_WITHDRAWAL,
            Currency::BTC => BTC_MIN_WITHDRAWAL,
        }
    }

    /// Largest amount a single withdrawal may move.
    pub fn max_withdrawal(&self) -> (r: u64)
        ensures
            r == if self is ICP { ICP_MAX_WITHDRAWAL as int } else { BTC_MAX_WITHDRAWAL as int },
    {
        match self {
            Currency::ICP => ICP_MAX_WITHDRAWAL,
            Currency::BTC => BTC_MAX_WITHDRAWAL,
        }
    }

    /// Ticker symbol for display.
    pub fn symbol(&self) -> (r: &'static str)
        ensures
            self is ICP ==> r@ == "ICP"@,
            self is BTC ==> r@ == "BTC"@,
    {
        match self {
            Currency::ICP => "ICP",
            Currency::BTC => "BTC",
        }
    }

    /// Name of the smallest unit for display.
    pub fn unit_name(&self) -> (r: &'static str)
        ensures
            self is ICP ==> r@ == "e8s"@,
            self is BTC ==> r@ == "sats"@,
    {
        match self {
            Currency::ICP => "e8s",
            Currency::BTC => "sats",
        }
    }

    /// Number of decimal places in the token (the same for both).
    pub fn decimals(&self) -> (r: u8)
        ensures
            r == 8,
    {
        8
    }
}

impl Default for Currency {
    /// Tables default to ICP when no currency is configured.
    fn default() -> (r: Self)
        ensures
            r is ICP,
    {
        Currency::ICP
    }
}


/// The decimal digit character for a value below ten.
pub open spec fn digit_char(d: int) -> char {
    crate::hex::hex_char(d)
}

/// The decimal text of a number, no leading zeros.
pub open spec fn dec_chars(n: int) -> Seq<char>
    decreases n,
{
    if n < 10 {
        seq![digit_char(n)]
    } else {
        dec_chars(n / 10) + seq![digit_char(n % 10)]
    }
}

/// Four fraction digits, zero padded.
pub open spec fn frac4_chars(f: int) -> Seq<char> {
    seq![
        digit_char(f / 1000 % 10),
        digit_char(f / 100 % 10),
        digit_char(f / 10 % 10),
        digit_char(f % 10),
    ]
}

/// An amount in smallest units written with four decimal places of the
/// whole token, rounding the fifth place half up.
pub open spec fn amount_4dp(units: u64) -> (int, int) {
    let whole = units as int / 100_000_000;
    let frac = (units as int % 100_000_000 + 5_000) / 10_000;
    if frac == 10_000 {
        (whole + 1, 0)
    } else {
        (whole, frac)
    }
}

/// The display text of an amount: ICP always as `w.ffff ICP`; BTC the
/// same from a thousandth of a token upward, and in raw satoshis below.
pub open spec fn spec_format_amount(c: Currency, units: u64) -> Seq<char> {
    if c is BTC && units < 100_000 {
        dec_chars(units as int) + " sats"@
    } else {
        let pair = amount_4dp(units);
        dec_chars(pair.0) + "."@ + frac4_chars(pair.1) + (
        if c is ICP {
            " ICP"@
        } else {
            " BTC"@
        })
    }
}

/// The decimal text of a number.
pub fn format_units(n: u64) -> (r: String)
    ensures
        r@ == dec_chars(n as int),
    decreases n,
{
    if n < 10 {
        String::from_str(crate::hex::hex_digit_str(n as u8))
    } else {
        let mut head = format_units(n / 10);
        head.append(crate::hex::hex_digit_str((n % 10) as u8));
        proof {
            assert(head@ =~= dec_chars(n as int));
        }
        head
    }
}

impl Currency {
    /// Writes an amount in smallest units as a human-readable token
    /// amount, to four decimal places; tiny BTC amounts stay in satoshis.
    pub fn format_amount(&self, smallest_units: u64) -> (r: String)
        ensures
            r@ == spec_format_amount(*self, smallest_units),
    {
        proof {
            reveal_strlit(" sats");
            reveal_strlit(".");
            reveal_strlit(" ICP");
            reveal_strlit(" BTC");
        }
        if matches!(self, Currency::BTC) && smallest_units < 100_000 {
            let mut text = format_units(smallest_units);
            text.append(" sats");
            return text;
        }
        let mut whole = smallest_units / 100_000_000;
        let mut frac = (smallest_units % 100_000_000 + 5_000) / 10_000;
        if frac == 10_000 {
            whole = whole + 1;
            frac = 0;
        }
        let mut text = format_units(whole);
        text.append(".");
        text.append(crate::hex::hex_digit_str(((frac / 1000) % 10) as u8));
        text.append(crate::hex::hex_digit_str(((frac / 100) % 10) as u8));
        text.append(crate::hex::hex_digit_str(((frac / 10) % 10) as u8));
        text.append(crate::hex::hex_digit_str((frac % 10) as u8));
        text.append(
            if matches!(self, Currency::ICP) {
                " ICP"
            } else {
                " BTC"
            },
        );
        proof {
            assert(text@ =~= spec_format_amount(*self, smallest_units));
        }
        text
    }
}

} // verus!
