//! Parameters of the user commands, and the reading of an amount.

use vstd::prelude::*;

verus! {

/// Whether `c` is one of the ten decimal digits.
pub open spec fn is_digit(c: char) -> bool {
    '0' <= c && c <= '9'
}

/// The number that a decimal digit stands for.
pub open spec fn digit_value(c: char) -> nat {
    (c as u32 - '0' as u32) as nat
}

/// The number that a string of decimal digits stands for, first digit most significant.
pub open spec fn digits_value(s: Seq<char>) -> nat
    decreases s.len(),
{
    if s.len() == 0 {
        0
    } else {
        digits_value(s.drop_last()) * 10 + digit_value(s.last())
    }
}

/// Whether every character of `s` is a decimal digit.
pub open spec fn all_digits(s: Seq<char>) -> bool {
    forall|i: int| 0 <= i < s.len() ==> is_digit(#[trigger] s[i])
}

/// What is left of `s` once one leading plus sign, if there is one, is taken off.
pub open spec fn unsigned_part(s: Seq<char>) -> Seq<char> {
    if s.len() > 0 && s[0] == '+' {
        s.subrange(1, s.len() as int)
    } else {
        s
    }
}

/// The amount that `s` spells: an optional plus sign, then at least one decimal digit
/// and nothing else, the whole no larger than `u64::MAX`.
pub open spec fn amount_of(s: Seq<char>) -> Option<u64> {
    let digits = unsigned_part(s);
    if digits.len() > 0 && all_digits(digits) && digits_value(digits) <= u64::MAX {
        Some(digits_value(digits) as u64)
    } else {
        None
    }
}

/// A longer string of digits stands for a number at least as large as any of its prefixes.
proof fn lemma_digits_value_grows(s: Seq<char>, n: int)
    requires
        0 <= n <= s.len(),
    ensures
        digits_value(s.subrange(0, n)) <= digits_value(s),
    decreases s.len(),
{
    if n == s.len() {
        assert(s.subrange(0, n) =~= s);
    } else {
        lemma_digits_value_grows(s.drop_last(), n);
        assert(s.drop_last().subrange(0, n) =~= s.subrange(0, n));
    }
}

/// Reads an amount as `amount_of` defines it.
pub fn parse_amount(v: &str) -> (r: Option<u64>)
    ensures
        r == amount_of(v@),
{
    let n = v.unicode_len();
    let start: usize = if n > 0 && v.get_char(0) == '+' {
        1
    } else {
        0
    };
    let ghost digits = unsigned_part(v@);
    if start == n {
        return None;
    }
    let mut acc: u64 = 0;
    let mut i: usize = start;
    while i < n
        invariant
            start <= i <= n,
            n == v@.len(),
            digits == unsigned_part(v@),
            digits == v@.subrange(start as int, n as int),
            all_digits(digits.subrange(0, i - start)),
            acc == digits_value(digits.subrange(0, i - start)),
        decreases n - i,
    {
        let c = v.get_char(i);
        let ghost seen = digits.subrange(0, i - start);
        let ghost next = digits.subrange(0, i - start + 1);
        assert(next.drop_last() =~= seen);
        if !(c >= '0' && c <= '9') {
            assert(!is_digit(digits[i - start]));
            return None;
        }
        let d: u64 = (c as u32 - '0' as u32) as u64;
        if acc > (u64::MAX - d) / 10 {
            proof {
                lemma_digits_value_grows(digits, i - start + 1);
            }
            return None;
        }
        acc = acc * 10 + d;
        i = i + 1;
        assert(all_digits(next)) by {
            assert forall|j: int| 0 <= j < seen.len() implies is_digit(#[trigger] next[j]) by {
                assert(next[j] == seen[j]);
            }
        }
    }
    assert(digits.subrange(0, i - start) =~= digits);
    Some(acc)
}

/// Tells whether `v` spells an amount, as a command line wants it told: nothing on
/// success, a sentence for the user otherwise.
pub fn is_u64(v: &str) -> (r: Result<(), String>)
    ensures
        r is Ok <==> amount_of(v@) is Some,
        r matches Err(msg) ==> msg@ == "The value is not an integer of type u64"@,
{
    if parse_amount(v).is_some() {
        Ok(())
    } else {
        Err("The value is not an integer of type u64".to_string())
    }
}

/// The recipient that an address argument gives: the argument itself, or nothing
/// where it is absent.
pub open spec fn address_arg(address: Option<&str>) -> Seq<char> {
    match address {
        Some(a) => a@,
        None => Seq::<char>::empty(),
    }
}

/// The amount that an amount argument gives: what it spells, or zero where it is
/// absent. `None` means that the argument is there and spells no amount.
pub open spec fn amount_arg(amount: Option<&str>) -> Option<u64> {
    match amount {
        Some(v) => amount_of(v@),
        None => Some(0u64),
    }
}

/// Why the arguments of a command were refused.
#[derive(Debug, Clone, Copy, PartialEq, Eq, Structural)]
pub enum ParamsError {
    /// The amount is not an optional plus sign and decimal digits, or exceeds `u64::MAX`.
    InvalidAmount,
}

/// What a transfer needs: the recipient's key in base 58 and the amount.
#[derive(Debug)]
pub struct TransferParams {
    pub pub_key: String,
    pub amount: u64,
}

impl TransferParams {
    /// Parameters with no recipient and no amount yet.
    pub fn new() -> (r: Self)
        ensures
            r.pub_key@ == Seq::<char>::empty(),
            r.amount == 0,
    {
        Self { pub_key: String::new(), amount: 0 }
    }

    /// Fills the parameters from what the command line gave: an argument that is
    /// absent leaves its field as `new` made it.
    pub fn from_args(address: Option<&str>, amount: Option<&str>) -> (r: Result<Self, ParamsError>)
        ensures
            match r {
                Ok(p) => p.pub_key@ == address_arg(address) && amount_arg(amount) == Some(p.amount),
                Err(e) => e == ParamsError::InvalidAmount && amount_arg(amount) is None,
            },
    {
        let mut params = Self::new();
        if let Some(a) = address {
            params.pub_key = a.to_string();
        }
        if let Some(v) = amount {
            match parse_amount(v) {
                Some(value) => {
                    params.amount = value;
                },
                None => {
                    return Err(ParamsError::InvalidAmount);
                },
            }
        }
        Ok(params)
    }
}

/// What a deposit needs: the asset to deposit.
pub struct Deposit {
    pub asset: String,
}

impl Deposit {
    /// A deposit that names no asset yet.
    pub fn new() -> (r: Self)
        ensures
            r.asset@ == Seq::<char>::empty(),
    {
        Self { asset: String::new() }
    }
}

/// What a withdrawal needs: the receiving address and the amount.
#[derive(Debug)]
pub struct WithdrawParams {
    pub pub_key: String,
    pub amount: u64,
}

impl WithdrawParams {
    /// Parameters with no address and no amount yet.
    pub fn new() -> (r: Self)
        ensures
            r.pub_key@ == Seq::<char>::empty(),
            r.amount == 0,
    {
        Self { pub_key: String::new(), amount: 0 }
    }

    /// Fills the parameters from what the command line gave: an argument that is
    /// absent leaves its field as `new` made it.
    pub fn from_args(address: Option<&str>, amount: Option<&str>) -> (r: Result<Self, ParamsError>)
        ensures
            match r {
                Ok(p) => p.pub_key@ == address_arg(address) && amount_arg(amount) == Some(p.amount),
                Err(e) => e == ParamsError::InvalidAmount && amount_arg(amount) is None,
            },
    {
        let mut params = Self::new();
        if let Some(a) = address {
            params.pub_key = a.to_string();
        }
        if let Some(v) = amount {
            match parse_amount(v) {
                Some(value) => {
                    params.amount = value;
                },
                None => {
                    return Err(ParamsError::InvalidAmount);
                },
            }
        }
        Ok(params)
    }
}

/// What the command line of the client asked for.
pub struct DrkCli {
    pub verbose: bool,
    pub cashier: bool,
    pub wallet: bool,
    pub key: bool,
    pub get_key: bool,
    pub info: bool,
    pub hello: bool,
    pub stop: bool,
    pub transfer: Option<TransferParams>,
    pub deposit: Option<Deposit>,
    pub withdraw: Option<WithdrawParams>,
}

} // verus!
