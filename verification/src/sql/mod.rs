pub mod arith;
pub mod codec;
pub mod engine;
pub mod executor;
pub mod number;
pub mod parser;
pub mod plan;
pub mod schema;
pub mod text;
pub mod types;
