//! A schema-driven packet dissection engine.
//!
//! A protocol is described declaratively as a [`schema::Schema`]: composite types made of
//! fields, enums whose variant is chosen from already decoded values, and payloads that are
//! handed to externally registered decoders. From that description the engine registers
//! identifiers once, derives a per-field plan, and walks each packet's bytes into a labelled
//! tree of decoded values.
//!
//! - `schema` and `validate`: the model and the errors that stop startup.
//! - `registry`: identifiers for subtrees and fields, and dispatch tables, assigned once.
//! - `plan`: what the walk does for each field.
//! - `dissect`, with `measure` and `tree`: the walk, the bytes it consumes and the nodes it
//!   builds, as functions of the schema, the registry, the buffer and the host's answers.
//! - `dispatch`: variant resolution, delegation to external decoders, and the host interface,
//!   which records every call it receives; `host`: a host that answers from tables.
//! - `store`: integer decoding and the field stores.
//! - `options`, `display`, `case`, `plugin`: how a protocol author's options, display hints,
//!   names and plugin declaration are read.
mod text;
pub mod display;
pub mod case;
pub mod schema;
pub mod validate;
pub mod store;
pub mod plan;
pub mod dispatch;
pub mod host;
pub mod measure;
pub mod dissect;
pub mod tree;
pub mod trace;
pub mod registry;
pub mod options;
pub mod plugin;
