pub mod assembler;
pub mod fields;
pub mod instructions;
pub mod layout;
pub mod template;
pub mod text;
pub mod utils;

pub use assembler::{assemble, assemble_template};
pub use instructions::Instruction;
