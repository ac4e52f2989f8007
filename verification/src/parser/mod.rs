pub mod character;
pub mod parse_utility;
pub mod syntax_spec;
pub mod syntax;
pub mod parser;
pub mod xref_stream;
pub mod security;
