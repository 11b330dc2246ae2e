//! A verified JSON-like document library: a character-level parser built
//! from small finite-state automata, a mutable document tree, compact
//! serialization, and a dotted/bracketed path-query language.

pub mod automa;
pub mod grammar;
pub mod laws;
pub mod model;
pub mod objects;
mod strutil;

pub use automa::is_char;
pub use automa::is_number;
pub use automa::is_space;
pub use automa::parser;
pub use automa::ArrayAutoma;
pub use automa::Automa;
pub use automa::AutomaError;
pub use automa::DetailError;
pub use automa::KeyParseQueryAutoma;
pub use automa::KeyParseQueryToken;
pub use automa::NumberAutoma;
pub use automa::ObjectAutoma;
pub use automa::ParserError;
pub use automa::StoreBufferIterator;
pub use automa::StrAutoma;
pub use automa::StringAutoma;
pub use model::Json;
pub use model::Num;
pub use objects::array;
pub use objects::null;
pub use objects::object;
pub use objects::string_to_json_escape;
pub use objects::ListJson;
pub use objects::NullJson;
pub use objects::Number;
pub use objects::NumberExponent;
pub use objects::ObjectJson;
pub use objects::ReaderJson;
pub use objects::TypeJson;
