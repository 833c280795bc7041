pub mod assemble;
pub mod checks;
pub mod conservation;
pub mod laws;
pub mod lookup;
pub mod model;
pub mod settle;
pub mod share;
pub mod sums;
pub mod tally;
pub mod transfer;
pub mod types;

pub use transfer::calculate_balance_changes;
pub use types::{
    Balance, Coin, DenomDefinition, MultiSend, Rate, SettlementError, MAX_VOLUME, RATE_SCALE,
};
