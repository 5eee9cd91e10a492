//! A block exchange engine: content identifiers, verified blocks, the local
//! want list, per-peer ledgers and the protocol state machine that ties them
//! together. Transport, storage and discovery are collaborators outside it.

pub mod cid;
pub mod block;
pub mod wantlist;
pub mod ledger;
pub mod engine;
pub mod wire;
