//! A code generator for the Ethereum virtual machine.
//!
//! It compiles the functions of a program in an intermediate representation ([`ir`]) to sections
//! of assembly, and joins them to a contract with a constructor that deploys them
//! ([`evm_asm_builder`]). The contract is handed out as operations of the `fuel-etk-asm` assembler
//! ([`etk`]), and its interface as operations of `fuel-ethabi` ([`abi`]).
//!
//! [`op`] says what the emitted operations are and how they are encoded, and [`model`] what the
//! code generator holds and emits. [`laws`] states what holds of it as a whole, [`code_laws`] what
//! the code consists of, byte by byte and label by label, and [`machine`] what running it does.
pub mod abi;
pub mod code_laws;
pub mod error;
pub mod etk;
pub mod evm_asm_builder;
pub mod ir;
pub mod label;
pub mod laws;
pub mod machine;
pub mod model;
pub mod op;
