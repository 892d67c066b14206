//! Analysis and safe re-filing of an mbsync-cached mailbox: scanning, clustering,
//! Sieve generation, and the journaled apply engine.

pub mod cli;
pub mod error;
pub mod filename;
pub mod header;
pub mod imap;
pub mod journal;
pub mod local;
pub mod lowercase;
pub mod managesieve;
pub mod mockcache;
pub mod model;
pub mod mover;
pub mod namemap;
pub mod number;
pub mod order;
pub mod plan;
pub mod reconcile;
pub mod scan;
pub mod seqs;
pub mod sieve;
pub mod sort;
pub mod suggest;
pub mod text;
pub mod textmap;
pub mod uidvalidity;
