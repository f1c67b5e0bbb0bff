//! A router for single-page applications: a path codec that maps typed,
//! nested route values to and from URL strings, a router state machine with an
//! append-only history and back/forward moves, and guarded view selection.
//!
//! Route types are described at run time by [`schema::Schema`] values; a
//! [`codec::Codec`] holds the schemas of an application, and a
//! [`router::Router`] navigates between the values of its root schema.

pub mod text;
pub mod number;
pub mod query;
pub mod schema;
pub mod route;
pub mod url;
pub mod codec;
pub mod router;
pub mod guard;
pub mod round_trip;

pub use codec::{Codec, ParseError};
pub use guard::{GuardOutcome, ViewTarget};
pub use route::Route;
pub use router::{MoveStatus, Router, RouterData};
pub use schema::{DefaultRoute, Schema, SchemaError, Shape, Variant};
