pub mod codec;
pub mod labels;
pub mod writer;
pub mod parser;
pub mod lib_roundtrip;
