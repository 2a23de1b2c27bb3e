# evm_asm

A verified code generator for the Ethereum virtual machine. It compiles the functions of a program
in an intermediate representation to sections of EVM assembly and joins them to a contract: a
constructor, and behind it the code that the constructor deploys.

- `src/` is the library, verified with Verus.
  - `evm_asm_builder` is the code generator.
  - `ir`, `error` and `label` hold what it reads and reports.
  - `op` defines the operations that it emits and their encoding, `model` its state and its output.
  - `etk` and `abi` are the boundary to the `fuel-etk-asm`, `fuel-etk-ops` and `fuel-ethabi` crates.
  - `laws` states what holds of the code generator as a whole.
- `tests/` runs the library with these crates.
- `app/` runs the assembler on the library's output.
