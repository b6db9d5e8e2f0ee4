//! An immutable, append-then-freeze event-log database keyed by opaque
//! 16-byte identifiers ("trails").
//!
//! Events are accumulated through a mutable [`Constructor`], whose per-field
//! dictionary (the lexicon) interns every value string. `finalize` freezes the
//! accumulated state into a compact byte image; [`Db`] reopens such an image
//! read-only and hands out [`Cursor`]s that decode one trail's event stream
//! at a time.

pub mod cons;
pub mod db;
pub mod errors;
pub mod item;
pub mod laws;
pub mod lexicon;
pub mod model;
pub mod serial;

pub use cons::Constructor;
pub use db::Cursor;
pub use db::Db;
pub use db::DbIter;
pub use db::Event;
pub use db::Trail;
pub use errors::Error;
pub use item::Item;
pub use item::Field;
pub use item::Timestamp;
pub use item::TrailId;
pub use item::Uuid;
pub use item::Value;
pub use item::Version;
