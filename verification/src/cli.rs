//! The compiler and cryptography subcommands of the command line, as
//! plain values (paths as text).
use vstd::prelude::*;

verus! {

/// Code tooling: compiling scripts, assembling and disassembling bytecode.
pub enum CompilerCommands {
    /// Compile a script into assembly text.
    Compile { input: String, output: Option<String>, emit_ir: bool },
    /// Same as `Compile`.
    Build { input: String, output: Option<String>, emit_ir: bool },
    /// Assemble assembly text into bytecode.
    Assemble { input: String, output: String },
    /// Disassemble bytecode into text.
    Disassemble { input: String },
    /// Show a bytecode program's opcodes.
    Inspect { input: String },
}

/// Snapshot signatures.
pub enum CryptoCommands {
    /// Make an Ed25519 key pair; `out` is the prefix of the two key files.
    Keygen { out: String },
    /// Sign a snapshot's header with a private key file.
    Sign { file: String, key: String },
    /// Check a snapshot's signature with a public key file.
    Verify { file: String, key: String },
}

} // verus!
