use vstd::prelude::*;

verus! {

/// The number of billionths in a rate of one.
pub const RATE_SCALE: u64 = 1_000_000_000;

/// The largest total that either side of a transfer may move, summed over all
/// of its coins: every intermediate product of the share computation then
/// fits in 128 bits.
pub const MAX_VOLUME: i128 = 9_223_372_036_854_775_807;

/// A quantity of one denomination.
#[derive(Debug, Clone)]
pub struct Coin {
    pub denom: String,
    pub amount: i128,
}

/// The coins of one account: what it holds, or what it sends or receives.
#[derive(Debug, Clone)]
pub struct Balance {
    pub address: String,
    pub coins: Vec<Coin>,
}

/// A surcharge rate, counted in billionths (`RATE_SCALE` is a rate of one).
#[derive(Debug, Clone, Copy)]
pub struct Rate {
    pub billionths: u64,
}

/// The attributes of one denomination.
#[derive(Debug, Clone)]
pub struct DenomDefinition {
    pub denom: String,
    /// The account that created the denomination; it pays no surcharge on it
    /// and receives its commission.
    pub issuer: String,
    /// Share of the transferred volume destroyed on top of each transfer.
    pub burn_rate: Rate,
    /// Share of the transferred volume paid to the issuer on top of each transfer.
    pub commission_rate: Rate,
}

/// A transfer from many accounts to many accounts, in many denominations.
#[derive(Debug, Clone)]
pub struct MultiSend {
    /// The debits: what each sending account gives.
    pub inputs: Vec<Balance>,
    /// The credits: what each receiving account gets.
    pub outputs: Vec<Balance>,
}

/// Why a transfer is rejected.
#[derive(Debug)]
pub enum SettlementError {
    /// Some denomination's input total differs from its output total.
    ConservationMismatch,
    /// A coin of the transfer names a denomination that has no definition.
    UnknownDenomination { denom: String },
    /// A sending account has no entry among the balances.
    MissingBalance { address: String },
    /// A sending account's balance has no entry for a denomination it sends,
    /// or holds less of it than one of its coins costs.
    InsufficientBalance { address: String, denom: String },
}

/// The mathematical content of a `SettlementError`.
pub enum Rejection {
    Conservation,
    Unknown(Seq<char>),
    Missing(Seq<char>),
    Insufficient(Seq<char>, Seq<char>),
}

impl View for SettlementError {
    type V = Rejection;

    open spec fn view(&self) -> Rejection {
        match self {
            SettlementError::ConservationMismatch => Rejection::Conservation,
            SettlementError::UnknownDenomination { denom } => Rejection::Unknown(denom@),
            SettlementError::MissingBalance { address } => Rejection::Missing(address@),
            SettlementError::InsufficientBalance { address, denom } => Rejection::Insufficient(
                address@,
                denom@,
            ),
        }
    }
}

/// The text of a rejection.
pub open spec fn message_of(e: Rejection) -> Seq<char> {
    match e {
        Rejection::Conservation => "notice that input and output does not match"@,
        Rejection::Unknown(d) => "no definition for denomination "@ + d,
        Rejection::Missing(a) => "No original balance specified for "@ + a,
        Rejection::Insufficient(a, d) => "notice that "@ + a + " does not have enough balance for "@
            + d,
    }
}

impl SettlementError {
    /// A human-readable description of the rejection.
    pub fn message(&self) -> (r: String)
        ensures
            r@ == message_of(self@),
    {
        match self {
            SettlementError::ConservationMismatch => String::from_str(
                "notice that input and output does not match",
            ),
            SettlementError::UnknownDenomination { denom } => {
                let mut s = String::from_str("no definition for denomination ");
                s.append(denom.as_str());
                s
            },
            SettlementError::MissingBalance { address } => {
                let mut s = String::from_str("No original balance specified for ");
                s.append(address.as_str());
                s
            },
            SettlementError::InsufficientBalance { address, denom } => {
                let mut s = String::from_str("notice that ");
                s.append(address.as_str());
                s.append(" does not have enough balance for ");
                s.append(denom.as_str());
                s
            },
        }
    }
}

} // verus!
