pub mod errors;
pub mod message;
pub mod resolver;
