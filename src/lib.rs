pub mod computation;
pub mod digest;
pub mod pattern;
pub mod search;
