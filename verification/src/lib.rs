//! Semantic analysis core for Paradox scripting (PDXScript).

pub mod kind;
pub mod text;
pub mod schema;
pub mod model;
pub mod table;
pub mod resolve;
pub mod context;
pub mod doc;
pub mod node;
pub mod order;
pub mod extract;
pub mod fingerprint;
pub mod entry;
pub mod ck3;
