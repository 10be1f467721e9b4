pub mod json;
pub mod message;
pub mod echo;
pub mod node;
