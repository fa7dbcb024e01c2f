//! Epoch-based distribution of collected protocol fees.
//!
//! Fees are gathered into fixed-length epochs. Bonded participants claim a
//! share of each epoch that is still inside the grace-period window, and
//! balances about to leave the window are carried into the newest epoch.
pub mod asset;
pub mod epoch;
pub mod error;
pub mod share;
pub mod distributor;
pub mod settlement;
pub mod factory;
