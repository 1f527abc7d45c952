pub mod decimal;
pub mod element;
pub mod object;
pub mod builder;
pub mod laws;
