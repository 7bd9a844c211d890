//! Compilation of IR programs to x86_64 machine code.
pub mod aot;
pub mod jit;
