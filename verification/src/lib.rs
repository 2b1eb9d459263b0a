//! A content-addressed store of immutable blocks that form a DAG, with
//! payloads encrypted per recipient.

pub mod block;
pub mod cipher;
pub mod codec;
pub mod dag;
pub mod decode;
pub mod digest;
pub mod error;
pub mod grammar;
pub mod keys;
pub mod order;
pub mod payload;
pub mod refs;
pub mod store;
pub mod table;
pub mod text;
pub mod verify;
pub mod walk;
