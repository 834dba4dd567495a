//! Asking a remote service to decompile bytecode.

pub mod queue;
pub mod transport;

pub use queue::DecompilationRequest;
