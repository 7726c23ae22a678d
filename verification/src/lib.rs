//! A query engine over raw JSON text.
//!
//! Given a byte buffer holding a document and a path expression, the engine
//! extracts the designated sub-values without building a parse tree for the
//! whole document. Every executable function carries a contract stated over
//! sequences of bytes, and every contract is proved.

pub mod error;
pub mod bytes;
pub mod element;
pub mod wild;
pub mod number;
pub mod path;
pub mod syntax;
pub mod parser;
pub mod value;
pub mod laws;
pub mod spans;

pub use element::{read_one, Element, Member};
pub use error::Error;
pub use parser::{bytes_get, bytes_to_map, bytes_to_vec, get};
pub use path::{Operator, Path, Query, SubSelector};
pub use syntax::parse_path;
pub use value::{Entry, Value};
