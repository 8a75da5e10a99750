//! An append-only, fact-oriented database: facts are (entity, attribute,
//! value) triples stamped with the transaction that introduced them, stored
//! in three sorted indexes backed by a persistent copy-on-write B-tree, and
//! queried by iterative unification of datalog-style clauses.

pub mod db;
pub mod ident;
pub mod index;
pub mod order;
pub mod parser;
pub mod query;
pub mod store;
pub mod value;
