pub mod config;
pub mod lemonade;
pub mod rag;
pub mod text;
