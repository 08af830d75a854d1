pub mod board;
pub mod engine;
pub mod text;
pub mod exportkifu;
pub mod vcf;
pub mod setting;
pub mod io;
pub mod session;
pub mod kifu_roundtrip;
pub mod branches;
