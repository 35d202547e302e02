pub mod bitindex;
pub mod column;
pub mod error;
pub mod number;
pub mod opcode;
pub mod vm;
