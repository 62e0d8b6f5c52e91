pub mod text;
pub mod analysis;
pub mod backend;
pub mod compiler;
mod index;
pub mod position;
pub mod semantic;
pub mod lexeme;
