//! A toolchain for the eight-instruction tape language: a parser to an
//! intermediate representation, an interpreter over it, an interpreter over
//! a serialized byte-stream form, and emitters of x86_64 machine code and
//! assembly.
pub mod compiler;
pub mod interpreted;
pub mod interpreter;
pub mod ir;
pub mod source;
