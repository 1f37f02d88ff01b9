//! A numeric payload index: points carry integer or floating-point values,
//! and the index answers range conditions over those values.
//!
//! Keys are kept in an order-preserving byte encoding (`key_encoding`), so that
//! the byte order of a stored key is the order of the value it encodes,
//! followed by the point it belongs to.
pub mod key_encoding;
pub mod key_order;
pub mod btree_index;
pub mod index_laws;
pub mod reload_laws;
