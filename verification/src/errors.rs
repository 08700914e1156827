//! The error taxonomy of the engine.
//!
//! Memory-layer failures (`AllocationFailure`, `ProtectionFailure`) are fatal
//! to the generation attempt that raised them but never to the owning context.
//! Construction-time errors are surfaced at the call that caused them, and
//! `UseAfterFinish` marks a contract violation by the host: an operation
//! against a context that was already finished.

use vstd::prelude::*;

verus! {

/// Structured failure report of the engine: an error kind, carrying the
/// offending symbol name where one exists.
#[derive(Debug, Clone, PartialEq, Eq)]
pub enum JitError {
    /// The platform (or the modelled allocator) could not satisfy a mapping
    /// or unmapping request.
    AllocationFailure,
    /// A protection transition was denied, or was requested against a region
    /// that is not mapped (or not in the state the operation needs).
    ProtectionFailure,
    /// An instruction whose operands do not match its opcode's declared
    /// shape, or an IR construction step against a malformed receiver.
    MalformedInstruction,
    /// Two items were exported under one name into the same context.
    DuplicateSymbol(String),
    /// A symbolic reference that no loaded module exports.
    UnresolvedSymbol(String),
    /// Generation was requested for a function that was never linked.
    NotLinked,
    /// Finalizing an item (or a whole context) that is already final.
    AlreadyFinalized,
    /// The code generator could not produce an image for this function, or
    /// an entry point does not denote a generated image.
    GenerationFailure,
    /// A source front-end rejected its input; carries the line at fault
    /// (counted from one) and a short description.  The engine itself never
    /// raises it: translating source text into IR is the host's
    /// collaborator, which reports through this kind.
    SourceCompilationError { line: usize, message: String },
    /// Any operation against a context that has already been finished.
    UseAfterFinish,
    /// An item-construction call that needs an open module, when none is
    /// open.
    NoOpenModule,
    /// A function-construction call that needs an open function, when none
    /// is open.
    NoOpenFunction,
    /// Sealing or creating an item while the current module's last function
    /// is still open.
    UnfinishedFunction,
    /// A module, item or region handle that this context never produced.
    InvalidHandle,
    /// An operation that needs a finalized module or function, against one
    /// still open.
    NotFinalized,
    /// Loading a module that is already loaded into this context.
    AlreadyLoaded,
}

impl JitError {
    /// A short stable name for the error kind, for host-side reporting.
    pub fn kind_name(&self) -> (r: &'static str)
        ensures
            r@ =~= self.kind_name_spec(),
    {
        match self {
            JitError::AllocationFailure => "AllocationFailure",
            JitError::ProtectionFailure => "ProtectionFailure",
            JitError::MalformedInstruction => "MalformedInstruction",
            JitError::DuplicateSymbol(_) => "DuplicateSymbol",
            JitError::UnresolvedSymbol(_) => "UnresolvedSymbol",
            JitError::NotLinked => "NotLinked",
            JitError::AlreadyFinalized => "AlreadyFinalized",
            JitError::GenerationFailure => "GenerationFailure",
            JitError::SourceCompilationError { .. } => "SourceCompilationError",
            JitError::UseAfterFinish => "UseAfterFinish",
            JitError::NoOpenModule => "NoOpenModule",
            JitError::NoOpenFunction => "NoOpenFunction",
            JitError::UnfinishedFunction => "UnfinishedFunction",
            JitError::InvalidHandle => "InvalidHandle",
            JitError::NotFinalized => "NotFinalized",
            JitError::AlreadyLoaded => "AlreadyLoaded",
        }
    }

    /// What `kind_name` returns, as a sequence of characters.
    pub open spec fn kind_name_spec(self) -> Seq<char> {
        match self {
            JitError::AllocationFailure => "AllocationFailure"@,
            JitError::ProtectionFailure => "ProtectionFailure"@,
            JitError::MalformedInstruction => "MalformedInstruction"@,
            JitError::DuplicateSymbol(_) => "DuplicateSymbol"@,
            JitError::UnresolvedSymbol(_) => "UnresolvedSymbol"@,
            JitError::NotLinked => "NotLinked"@,
            JitError::AlreadyFinalized => "AlreadyFinalized"@,
            JitError::GenerationFailure => "GenerationFailure"@,
            JitError::SourceCompilationError { .. } => "SourceCompilationError"@,
            JitError::UseAfterFinish => "UseAfterFinish"@,
            JitError::NoOpenModule => "NoOpenModule"@,
            JitError::NoOpenFunction => "NoOpenFunction"@,
            JitError::UnfinishedFunction => "UnfinishedFunction"@,
            JitError::InvalidHandle => "InvalidHandle"@,
            JitError::NotFinalized => "NotFinalized"@,
            JitError::AlreadyLoaded => "AlreadyLoaded"@,
        }
    }
}

} // verus!
