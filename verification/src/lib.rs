//! Pool side of the DATUM protocol: share verification, TIDES accounting and the decisions
//! of a gateway session.

pub mod address;
pub mod base16;
pub mod blocks;
pub mod bytes;
pub mod capped;
pub mod classify;
pub mod coinbase;
pub mod coinbaser;
pub mod controls;
pub mod digest;
pub mod frame;
pub mod http;
pub mod ip;
pub mod issue;
pub mod json;
pub mod ledger;
pub mod mining;
pub mod names;
pub mod pow;
pub mod reading;
pub mod records;
pub mod seen;
pub mod session;
pub mod slots;
pub mod snapshot;
pub mod split;
pub mod startup;
pub mod state;
pub mod stats;
pub mod text;
pub mod tides;
pub mod verify;
