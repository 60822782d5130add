use vstd::prelude::*;

verus! {

/// The two ways a source text can be structurally ill-formed.
#[derive(Debug, Clone, Copy, PartialEq, Eq, Structural)]
pub enum CompileErrorKind {
    /// A `[` was opened but never closed before the end of the text.
    UnclosedLeftBracket,
    /// A `]` appeared with no `[` still open.
    UnexpectedRightBracket,
}

/// A structural compile error together with the 1-based source position
/// at which it was detected.
#[derive(Debug, Clone, Copy, PartialEq, Eq, Structural)]
pub struct CompileError {
    pub line: u32,
    pub col: u32,
    pub kind: CompileErrorKind,
}

/// A failure raised while a compiled program is running.
#[derive(Debug, Clone, PartialEq, Eq)]
pub enum RuntimeError {
    /// An input or output stream failed; carries the stream's own message.
    IO(String),
    /// The cursor was moved outside the memory buffer.
    PointerOverflow,
}

/// The aggregate engine error: exactly one of a construction failure,
/// a structural compile error, or a runtime error.
#[derive(Debug, Clone, PartialEq, Eq)]
pub enum VMError {
    /// Code generation or allocation failed; carries the underlying message.
    IO(String),
    /// The source text was structurally ill-formed.
    Compile(CompileError),
    /// The program failed while running.
    Runtime(RuntimeError),
}

/// Wraps a runtime error in the aggregate error type.
pub fn vm_error(re: RuntimeError) -> (r: VMError)
    ensures
        r == VMError::Runtime(re),
{
    VMError::Runtime(re)
}

} // verus!
