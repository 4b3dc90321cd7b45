//! Sonara: a music composition language. Source text is read into tokens
//! (`lexer`), tokens into a song (`parser`, `names`), and a song into the
//! script that renders it to audio (`transpiler_nrt`).
pub mod ast;
pub mod cli;
pub mod lexer;
pub mod names;
pub mod parser;
pub mod text;
pub mod transpiler_nrt;
