//! Decision logic of a bot that manages delegated stake: it scores validators, keeps the
//! classifications of past epochs, sends transactions until they are confirmed, and
//! evaluates vote accounts, stake accounts and inflation rewards.

pub mod batches;
pub mod db;
pub mod decimal;
pub mod epoch_files;
pub mod fees;
pub mod inflation;
pub mod keys;
pub mod outside;
pub mod send;
pub mod send_laws;
pub mod stake_accounts;
pub mod totals;
pub mod vote_accounts;
pub mod warmup;
