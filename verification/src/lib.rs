//! Parser for a bracketed-tag dialogue script format used by a narrative
//! game engine.
//!
//! A single message is a flat character stream interleaving literal text and
//! `[tag ...]` control markers, led by a fixed-shape header tag
//! `[msg <ID> [<Character>]]`.  Parsing turns one such stream into a
//! structured [`Message`](parser::Message): a header (box type, message
//! identifier, optional speaker), the concatenated literal text, two
//! presentation flags, and an optional confidant-points award.
//!
//! The mathematical model of the format lives in [`model`]; every executable
//! parsing function is specified against it.

pub mod laws;
pub mod model;
pub mod parser;
mod scan;

pub use parser::BoxType;
pub use parser::ConfidantPoints;
pub use parser::Message;
pub use parser::MessageFlags;
pub use parser::MessageHeader;
