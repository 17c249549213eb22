//! A multi-tenant note store kept in a durable ordered map.
//!
//! Callers are identified by an opaque principal string. A note is readable by
//! its owner and by the principals it was shared with; only the owner may
//! change, share or delete it.

pub mod codec;
pub mod laws;
pub mod note;
pub mod stable_map;
pub mod store;
