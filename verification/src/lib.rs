pub mod laws;
pub mod model;
pub mod parse;
pub mod ser;
pub mod value;

pub use parse::parse;
pub use parse::ParseError;
pub use ser::pretty_print;
pub use ser::SerializeError;
pub use value::JVal;
pub use value::Value;
