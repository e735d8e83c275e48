use vstd::prelude::*;

verus! {

/// The broad classes of failure: malformed input, a reference that does not
/// resolve, or a declared bound that was exceeded.
#[derive(Clone, Copy, Debug, PartialEq, Eq, Structural)]
pub enum ErrorKind {
    Format,
    Resolution,
    Capacity,
}

/// Every failure of decoding or execution. Each one aborts the operation in
/// progress.
#[derive(Clone, Copy, Debug, PartialEq, Eq, Structural)]
pub enum JvmError {
    /// A read of `wanted` bytes at `offset` ran past the end of the buffer.
    OutOfBounds { offset: usize, wanted: usize },
    /// The buffer does not start with the class-file signature.
    NotAClassFile,
    /// A constant-pool entry carries a tag outside the supported set.
    UnknownConstantTag { tag: u8 },
    /// Bytes that were to be read as text are not well-formed UTF-8.
    InvalidUtf8,
    /// An attribute's body is shorter or longer than its contents.
    AttributeLengthMismatch,
    /// An instruction byte outside the supported opcode set.
    UnknownOpcode { opcode: u8 },
    /// A read of the next code byte at `pc`, the end of the code.
    EndOfCode { pc: usize },
    /// An instruction's immediate operands run past the end of the code.
    TruncatedInstruction { pc: usize },
    /// A constant-pool index that is 0 or past the end of the pool.
    IndexOutOfRange { index: usize },
    /// A constant-pool entry of another kind than the use site needs.
    WrongConstantKind { index: usize },
    /// No class of that name is registered.
    ClassNotFound,
    /// The class has no method of that name with a Code attribute.
    MethodNotFound,
    /// A push onto an operand stack that already holds `max_stack` values.
    OperandStackOverflow,
    /// An invocation beyond the deepest call stack the engine allows.
    CallStackOverflow,
}

impl JvmError {
    pub open spec fn spec_kind(self) -> ErrorKind {
        match self {
            JvmError::OperandStackOverflow | JvmError::CallStackOverflow => ErrorKind::Capacity,
            JvmError::IndexOutOfRange { .. } | JvmError::WrongConstantKind { .. }
            | JvmError::ClassNotFound | JvmError::MethodNotFound => ErrorKind::Resolution,
            _ => ErrorKind::Format,
        }
    }

    /// The class of failure this error belongs to.
    pub fn kind(&self) -> (r: ErrorKind)
        ensures
            r == self.spec_kind(),
    {
        match self {
            JvmError::OperandStackOverflow | JvmError::CallStackOverflow => ErrorKind::Capacity,
            JvmError::IndexOutOfRange { .. } | JvmError::WrongConstantKind { .. }
            | JvmError::ClassNotFound | JvmError::MethodNotFound => ErrorKind::Resolution,
            _ => ErrorKind::Format,
        }
    }
}

} // verus!
