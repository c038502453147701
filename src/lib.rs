//! Generation of strings from a user-defined context-free grammar.
//!
//! Rules are written as `LEFT->ALT|ALT|...`, where each alternative is a list
//! of tokens joined by a separator; a token starting with `!` names a
//! non-terminal. A grammar expands its start symbol recursively, up to a
//! depth bound, choosing alternatives either by a counter (ascending order)
//! or uniformly at random.

pub mod config;
pub mod grammar;
pub mod rule;
pub mod symbol;
pub mod text;

pub use config::CfgData;
pub use grammar::ContextFreeGrammar;
pub use rule::CfgRule;
pub use symbol::{ascending_order, init_idx, new_order, random_order, Order, Symbol, SymbolChain};
