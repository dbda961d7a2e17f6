pub mod field;
pub mod polynomial;
pub mod primality;
