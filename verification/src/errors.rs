use vstd::prelude::*;
use vstd::string::*;

verus! {

/// Why the pool turned a transaction away.
#[derive(Debug)]
pub enum MempoolError {
    FeeBelowMinimum { fee: u64, min_fee: u64 },
    Eviction { fee: u64, worst_fee: u64 },
    PoolFull,
    NonceGap { sender: String, expected: u64, got: u64 },
    Duplicate { sender: String, nonce: u64, existing_fee: u64, new_fee: u64 },
    UnexpectedNonce { sender: String, expected: u64, got: u64 },
    InsufficientBalance { sender: String, balance: u64, fee: u64 },
    UnknownSender { sender: String },
}

/// A rejection as plain values: senders are taken by their characters.
pub enum Rejection {
    FeeBelowMinimum { fee: u64, min_fee: u64 },
    Eviction { fee: u64, worst_fee: u64 },
    PoolFull,
    NonceGap { sender: Seq<char>, expected: u64, got: u64 },
    Duplicate { sender: Seq<char>, nonce: u64, existing_fee: u64, new_fee: u64 },
    UnexpectedNonce { sender: Seq<char>, expected: u64, got: u64 },
    InsufficientBalance { sender: Seq<char>, balance: u64, fee: u64 },
    UnknownSender { sender: Seq<char> },
}

impl View for MempoolError {
    type V = Rejection;

    open spec fn view(&self) -> Rejection {
        match self {
            MempoolError::FeeBelowMinimum { fee, min_fee } => Rejection::FeeBelowMinimum {
                fee: *fee,
                min_fee: *min_fee,
            },
            MempoolError::Eviction { fee, worst_fee } => Rejection::Eviction {
                fee: *fee,
                worst_fee: *worst_fee,
            },
            MempoolError::PoolFull => Rejection::PoolFull,
            MempoolError::NonceGap { sender, expected, got } => Rejection::NonceGap {
                sender: sender@,
                expected: *expected,
                got: *got,
            },
            MempoolError::Duplicate { sender, nonce, existing_fee, new_fee } => Rejection::Duplicate {
                sender: sender@,
                nonce: *nonce,
                existing_fee: *existing_fee,
                new_fee: *new_fee,
            },
            MempoolError::UnexpectedNonce { sender, expected, got } => Rejection::UnexpectedNonce {
                sender: sender@,
                expected: *expected,
                got: *got,
            },
            MempoolError::InsufficientBalance { sender, balance, fee } => Rejection::InsufficientBalance {
                sender: sender@,
                balance: *balance,
                fee: *fee,
            },
            MempoolError::UnknownSender { sender } => Rejection::UnknownSender { sender: sender@ },
        }
    }
}

/// The character of a decimal digit `d` (0 through 9).
pub open spec fn digit_char(d: nat) -> char {
    (d + 48) as char
}

/// The decimal rendering of `n`, without leading zeros.
pub open spec fn decimal(n: nat) -> Seq<char>
    decreases n,
{
    if n < 10 {
        seq![digit_char(n)]
    } else {
        decimal(n / 10).push(digit_char(n % 10))
    }
}

/// The human-readable text of a rejection.
pub open spec fn describe(r: Rejection) -> Seq<char> {
    match r {
        Rejection::FeeBelowMinimum { fee, min_fee } => "transaction fee "@ + decimal(fee as nat)
            + " is below minimum "@ + decimal(min_fee as nat),
        Rejection::Eviction { fee, worst_fee } => "pool full: fee "@ + decimal(fee as nat)
            + " does not outbid worst fee "@ + decimal(worst_fee as nat),
        Rejection::PoolFull => "pool full"@,
        Rejection::NonceGap { sender, expected, got } => "nonce gap for "@ + sender
            + ": expected "@ + decimal(expected as nat) + ", got "@ + decimal(got as nat),
        Rejection::Duplicate { sender, nonce, existing_fee, new_fee } => "duplicate (sender="@
            + sender + ", nonce="@ + decimal(nonce as nat) + "): new fee "@ + decimal(
            new_fee as nat,
        ) + " must exceed existing fee "@ + decimal(existing_fee as nat),
        Rejection::UnexpectedNonce { sender, expected, got } => "Unexpected nonce for "@ + sender
            + ": expected "@ + decimal(expected as nat) + ", got "@ + decimal(got as nat),
        Rejection::InsufficientBalance { sender, balance, fee } => "Insufficient balance for "@
            + sender + ": balance "@ + decimal(balance as nat) + ", fee "@ + decimal(fee as nat),
        Rejection::UnknownSender { sender } => "Unknown sender: "@ + sender,
    }
}

/// Appends the decimal rendering of `n` to `out`.
fn push_decimal(out: &mut String, n: u64)
    ensures
        final(out)@ == old(out)@ + decimal(n as nat),
    decreases n,
{
    if n >= 10 {
        push_decimal(out, n / 10);
    }
    let digits = "0123456789";
    let d: usize = (n % 10) as usize;
    proof {
        reveal_strlit("0123456789");
        assert(digits@[d as int] == digit_char(d as nat));
    }
    let piece = digits.substring_char(d, d + 1);
    proof {
        assert(piece@ =~= seq![digit_char(d as nat)]);
    }
    out.append(piece);
    proof {
        if n >= 10 {
            assert(decimal(n as nat) == decimal((n / 10) as nat).push(digit_char((n % 10) as nat)));
        }
    }
}

impl MempoolError {
    /// The message that tells a user why the transaction was turned away.
    pub fn to_string(&self) -> (text: String)
        ensures
            text@ == describe(self@),
    {
        match self {
            MempoolError::FeeBelowMinimum { fee, min_fee } => {
                let mut s = String::from_str("transaction fee ");
                push_decimal(&mut s, *fee);
                s.append(" is below minimum ");
                push_decimal(&mut s, *min_fee);
                s
            },
            MempoolError::Eviction { fee, worst_fee } => {
                let mut s = String::from_str("pool full: fee ");
                push_decimal(&mut s, *fee);
                s.append(" does not outbid worst fee ");
                push_decimal(&mut s, *worst_fee);
                s
            },
            MempoolError::PoolFull => String::from_str("pool full"),
            MempoolError::NonceGap { sender, expected, got } => {
                let mut s = String::from_str("nonce gap for ");
                s.append(sender.as_str());
                s.append(": expected ");
                push_decimal(&mut s, *expected);
                s.append(", got ");
                push_decimal(&mut s, *got);
                s
            },
            MempoolError::Duplicate { sender, nonce, existing_fee, new_fee } => {
                let mut s = String::from_str("duplicate (sender=");
                s.append(sender.as_str());
                s.append(", nonce=");
                push_decimal(&mut s, *nonce);
                s.append("): new fee ");
                push_decimal(&mut s, *new_fee);
                s.append(" must exceed existing fee ");
                push_decimal(&mut s, *existing_fee);
                s
            },
            MempoolError::UnexpectedNonce { sender, expected, got } => {
                let mut s = String::from_str("Unexpected nonce for ");
                s.append(sender.as_str());
                s.append(": expected ");
                push_decimal(&mut s, *expected);
                s.append(", got ");
                push_decimal(&mut s, *got);
                s
            },
            MempoolError::InsufficientBalance { sender, balance, fee } => {
                let mut s = String::from_str("Insufficient balance for ");
                s.append(sender.as_str());
                s.append(": balance ");
                push_decimal(&mut s, *balance);
                s.append(", fee ");
                push_decimal(&mut s, *fee);
                s
            },
            MempoolError::UnknownSender { sender } => {
                let mut s = String::from_str("Unknown sender: ");
                s.append(sender.as_str());
                s
            },
        }
    }
}

} // verus!
