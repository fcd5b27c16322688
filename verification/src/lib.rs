//! A peephole-optimising compiler and a virtual machine for Brainfuck, with
//! proofs that the two agree with the language.
//!
//! The pipeline is: source bytes, [`token::tokenize`], tokens,
//! [`compiler::compile`], a [`instruction::Program`], [`vm::Vm::run`], output
//! bytes.
//!
//! * [`token`]: the eight tokens and the tokenizer.
//! * [`instruction`]: the instruction set and the compiled program.
//! * [`compiler`]: bracket matching, coalescing, cancellation and fusion of
//!   loop idioms; when a source compiles, and to what.
//! * [`machine`]: the model of the machine: what each instruction does, and
//!   what a run on a budget of steps amounts to.
//! * [`vm`]: the machine itself, on a wrapping tape of 65536 cells.
//! * [`profile`]: counts of executions for each address.
//! * [`source`]: what a source means, token by token.
//! * [`equivalence`]: every program does what its source does.
//!   [`straight`], [`layout`], [`idioms`] and [`loops`] carry the proof.
//! * [`wraparound`]: a full turn of the tape is no move at all.

pub mod compiler;
pub mod equivalence;
pub mod idioms;
pub mod instruction;
pub mod layout;
pub mod loops;
pub mod machine;
pub mod profile;
pub mod source;
pub mod straight;
pub mod token;
pub mod vm;
pub mod wraparound;
