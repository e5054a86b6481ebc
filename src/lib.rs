//! A codec for ADIF, the tag-delimited text format in which amateur-radio
//! stations exchange their contact logs.

pub mod award;
pub mod container;
pub mod laws;
pub mod number;
pub mod numlaw;
pub mod parser;
pub mod text;
pub mod token;
pub mod value;

pub use award::Award;
pub use container::{AdifFile, AdifHeader, AdifRecord};
pub use parser::{ParseError, ParseErrorKind, parse_adif};
pub use token::{Token, parse_line_to_tokens};
pub use value::{AdifType, Date, Decimal, SerializeError, SerializeErrorKind, Time};
