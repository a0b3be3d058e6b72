pub mod parser;
pub mod v1;
