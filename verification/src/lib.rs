//! keyjar stashes API keys and small secrets for shells and scripts.
//!
//! Entries are individual age-encrypted files under a store directory; the
//! identity lives apart from the store, so a copy of the store alone stays sealed.
//!
//! This library touches no file. It says which files to read (`store`, `walk`),
//! takes in what was found (`host`), and answers with the changes to make (`plan`).
//! Its contracts speak of what was seen; `disk` models where that comes from, and
//! `laws`, `finding`, `rotation` and `whole` state what holds of a store on it.
//! `meaning` and `outcomes` say what the words of the contracts come to, in
//! characters, bytes and cases.

pub mod cli;
pub mod commands;
pub mod components;
pub mod consent;
pub mod crypt;
pub mod disk;
pub mod edit;
pub mod env;
pub mod error;
pub mod finding;
pub mod host;
pub mod identity;
pub mod laws;
pub mod layout;
pub mod meaning;
pub mod name;
pub mod order;
pub mod outcomes;
pub mod output;
pub mod paths;
pub mod plan;
pub mod rekey;
pub mod rotation;
pub mod store;
pub mod text;
pub mod tty;
pub mod walk;
pub mod whole;
