pub mod chip8;
pub mod display;
pub mod keypad;
pub mod opcode;

pub use crate::chip8::Chip8;
pub use crate::chip8::Chip8Error;
pub use crate::display::Display;
pub use crate::keypad::Keypad;
pub use crate::opcode::OpCode;
