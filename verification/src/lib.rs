//! A token curated registry and the root-of-trust certificate table built on it.
//!
//! A community curates a list of members with stakes: candidates apply with a deposit,
//! opponents contest with a deposit, third parties vote with stakes, and the end of a block
//! turns what has matured into members, or into slashed and rewarded stakes. The members book
//! slots for root certificates, whose validity follows from the slot, from the membership of
//! its owner and from the block number.
//!
//! - [`tcr`] holds the registry and its calls, [`finalize`] what the end of a block does to
//!   it, [`settlement`] what happens to the stakes of a challenge, [`backing`] how the
//!   reserves on the ledger answer to the stakes, and [`deposits`] how the deposits answer
//!   to the minima.
//! - [`root_of_trust`] holds the table of slots and the validity of certificates.
//! - [`ledger`] is the interface of the ledger that both move tokens on, [`balances`] a
//!   ledger in memory, and [`members`] the interface of whoever is told the membership.
//! - [`application`] and [`registry`] hold the records and their collections, [`permille`]
//!   the fraction that is slashed, [`types`] the plain quantities.
//! - [`mock`] is a fixture: rules, funded accounts and a subscriber that checks what it is
//!   told.

pub mod application;
pub mod backing;
pub mod balances;
pub mod deposits;
pub mod finalize;
pub mod ledger;
pub mod members;
pub mod mock;
pub mod permille;
pub mod registry;
pub mod root_of_trust;
pub mod settlement;
pub mod tcr;
pub mod types;
