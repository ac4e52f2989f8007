use vstd::prelude::*;

pub mod error;
pub mod objects;
pub mod cross_ref_table;
pub mod parser;
pub mod store;
pub mod pdf_context;
pub mod writer;
pub mod document;
pub mod page;
pub mod path;
pub mod round_trip;
pub mod read_back;

verus! {
} // verus!
