//! Object retrieval for a content-addressed version-control object store:
//! object ids and their hex form, the loose and pack backends, the ordered
//! storage set that composes them, and the typed decoding of object bodies.

pub mod oid;
pub mod objects;
pub mod loose;
pub mod pack;

pub mod store;
pub mod discovery;
