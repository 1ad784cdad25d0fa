//! A recurring-payment ledger.
//!
//! Accounts deposit funds, register payment schedules, and trigger settlement
//! passes. A pass scans every owner's schedules in store order: each schedule
//! that is due and funded pays its amount out of the owner's balance, is
//! rescheduled one period later, or is retired when its next occurrence would
//! reach its end time. The transfers a pass performs are returned to the
//! caller, who carries them out.

pub mod laws;
pub mod model;
pub mod state;
pub mod store;

pub use model::PaymentSchedule;
pub use model::TransactionRecord;
pub use model::NO_END;
pub use state::PaySystem;
