//! Statement-execution and result-materialization core of a relational
//! data-mapping layer.
//!
//! The crate turns a backend-agnostic [`Operation`](sql::Operation) into
//! dialect SQL with ordered bind parameters, executes it with the
//! optimistic-concurrency precondition protocol for updates, decodes raw
//! rows back into the tagged [`Value`](value::Value) model, and exposes the
//! result as a single-pass [`ValueStream`](stream::ValueStream) that a
//! typed [`Cursor`](cursor::Cursor) materializes into application models.

pub mod codec;
pub mod cursor;
pub mod driver;
pub mod error;
pub mod schema;
pub mod sql;
pub mod stream;
pub mod value;
