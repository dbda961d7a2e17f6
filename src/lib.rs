pub mod compiler;
pub mod crypto;
pub mod instruction;
pub mod register;
pub mod registers;
pub mod machine;
