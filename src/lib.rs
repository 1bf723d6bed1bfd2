//! Decoding of multipart/form-data parts into a typed value tree, with
//! per-field size limits declared against a record type's field names.
pub mod coerce;
pub mod decoder;
pub mod schema;
pub mod value;

pub use coerce::coerce;
pub use decoder::{decode, ChunkOutcome, Decoder, Multipart, MultipartError, Part, PartAction};
pub use schema::{MultipartForm, Schema, SchemaError};
pub use value::{File, Slot, Value, ValueTree};
