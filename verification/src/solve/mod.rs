//! The repair of failed solves.
pub mod args;
pub mod audit;
pub mod declared;
pub mod document;
pub mod driver;
pub mod error;
pub mod fallback;
pub mod ladder;
pub mod ledger;
pub mod lock;
pub mod manifest;
pub mod order;
pub mod ownership;
pub mod parse;
pub mod paths;
pub mod proposals;
pub mod ranges;
pub mod repair;
pub mod session;
pub mod shadow;
pub mod smoke;
pub mod unroute;
pub mod workspace;
