//! Schedules transactions that withdraw from balances as soon as their reservations are secured.
//!
//! [`scheduler::WithdrawScheduler`] is the scheduler. What it holds and what its operations make of
//! that is told by [`model::SchedulerView`], which the contracts speak of. [`account_laws`],
//! [`laws`], [`books`] and [`arrival`] hold what follows of the operations, and [`history`] what
//! follows for every sequence of calls. [`enqueue_outcomes`] and [`outcomes`] tell what lists of
//! transactions and settlements come to, of what is handed in, held and handed out alone.
pub mod account_laws;
pub mod account_state;
pub mod arrival;
pub mod balance_read;
pub mod books;
pub mod dash_maps;
pub mod enqueue_outcomes;
pub mod history;
pub mod laws;
mod listing;
pub mod model;
pub mod outcomes;
pub mod pending;
pub mod registration;
pub mod scheduler;
pub mod types;
