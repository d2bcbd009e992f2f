//! Polyseme: a byte stream carried as DNS TXT records whose names only a
//! holder of the shared secret can derive.

pub mod base64_text;
pub mod builder;
pub mod content;
pub mod decoding;
pub mod digest;
pub mod encoding;
pub mod label;
pub mod laws;
pub mod parser;
pub mod roundtrip;
pub mod zone;

pub use builder::{create_polyseme, PolysemeBuilder};
pub use content::{ContentEntry, ContentSet, HashContext};
pub use decoding::PolysemeParseError;
pub use label::next_ahotp;
pub use parser::{fetch_polyseme, PolysemeParser, RecordFetcher};
pub use zone::zone_line;
