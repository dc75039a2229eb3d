//! The state engine of a client of a shielded ledger.
//!
//! A client follows the ledger by applying, one after another, the updates that
//! validated transactions leave: the nullifiers of the coins spent and the new
//! coins with their encrypted notes. It keeps a commitment tree over all coins,
//! the history of the roots of that tree, the set of all nullifiers, and, for
//! every coin whose note one of its secrets opens, a witness that proves the
//! coin against the tree as the tree grows.
//!
//! - `crypto` holds the values and the tree: coins, nullifiers, keys, notes with
//!   their trial decryption, the nodes of the tree with their hash, the tree and
//!   the witness, and what a tree is as mathematics.
//! - `store` holds the sets that the nullifiers and the roots are kept in.
//! - `wallet` holds the secrets, the cashiers and the coins of one wallet.
//! - `state` holds the program state and the application of updates to it.
//! - `validation` holds what the validation of a transaction asks of the state.
//! - `address` reads the keys of recipients.
//! - `broker` holds the decisions of the task that owns the state.
//! - `cli` holds the parameters of the user's commands.

pub mod address;
pub mod broker;
pub mod cli;
pub mod crypto;
pub mod state;
pub mod store;
pub mod validation;
pub mod wallet;
