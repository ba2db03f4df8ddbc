//! A staking ledger: a bounded registry of participants sharing a reward pool
//! that accrues pro rata to stake over elapsed time.
pub mod error;
pub mod lemmas;
pub mod program;
pub mod state;

pub use error::StakingError;
pub use state::{User, Vault, MAX_STAKERS, SECONDS_PER_DAY};
pub use program::{
    claim, close_pda, fund, initialize_vault, stake, unstake, update_vault, withdraw,
};
