//! A bank of accounts driven by a ledger of deposits, withdrawals and transfers.
//!
//! The library holds the rules: how one ledger entry changes the accounts, how
//! entries are handed to worker slots, how outcomes are counted, and how the
//! ledger's text is read. A host that runs entries on threads keeps the bank
//! behind one lock and calls into the library for every decision.

pub mod ledger;
