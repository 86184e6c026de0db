//! Block-connected state machine of the BIP300/BIP301 drivechain soft fork.
//!
//! The library parses coinbase messages, applies connected blocks to an
//! in-memory set of tables with all-or-nothing semantics, undoes them on
//! disconnect, packs table rows into bytes, and assembles coinbase outputs.
pub mod assembler;
pub mod codec;
pub mod hash;
pub mod rows;
pub mod state;
pub mod tables;
pub mod types;
pub mod validator;
