use vstd::prelude::*;

use crate::symbol::Symbol;

verus! {

/// Which of the two operand stacks an operation popped from when it found
/// the stack empty.
#[derive(Clone, Copy, Debug, PartialEq, Eq, Structural)]
pub enum WhichStack {
    Main,
    Secondary,
}

/// Why a definition form was rejected.
#[derive(Clone, Copy, Debug, PartialEq, Eq, Structural)]
pub enum DefReason {
    /// A word definition did not start with a name.
    ExpectedName,
    /// The defined name started with one of the reserved prefixes.
    ReservedPrefix,
    /// A word definition had no stack-effect declaration.
    ExpectedEffect,
    /// The input ended before the terminating end marker.
    Undelimited,
    /// A type definition did not start with a name.
    ExpectedTypeName,
    /// A type name did not start with an upper-case letter.
    TypeNameNotUpper,
    /// A type definition held something other than component names and one
    /// documentation string.
    InvalidTypeComponent,
    /// A word definition named a word bound to a primitive.
    RedefinePrimitive,
    /// An end marker stood outside any definition.
    UnexpectedEnd,
    /// A conditional branch position held something other than a block
    /// literal.
    ExpectedBlock,
    /// The instructions ended where a conditional branch was expected.
    MissingBranch,
    /// A stack-effect declaration stood outside a definition header.
    StrayEffect,
}

/// Why the reader rejected its input.
#[derive(Clone, Copy, Debug, PartialEq, Eq, Structural)]
pub enum ParseReason {
    /// The input ended inside a block literal or a stack-effect declaration.
    UnexpectedEndOfInput,
    /// A selector token was not a well-formed field number.
    MalformedSelector,
}

/// The closed error taxonomy of the runtime.  Every failing operation
/// reports one of these; no operation aborts the process.
pub enum Error {
    /// A word reference named a symbol with no binding.
    UnknownWord(Symbol),
    /// A word resolved to an overload set, but no overload matched the
    /// stack.
    UnknownMethod(Symbol),
    /// A pop found its stack empty.
    StackUnderflow(WhichStack),
    /// A value's runtime type tag was not the one the operation required.
    TypeMismatch { expected: Symbol, found: Symbol },
    /// A definition form was malformed.
    MalformedDefinition(DefReason),
    /// A field selection or secondary-stack pick was out of range,
    /// including a tuple instruction of arity zero.
    IndexOutOfRange,
    /// The failing primitive popped this message and raised it.
    UserError(Vec<u8>),
    /// The reader rejected the source text.
    Parse(ParseReason),
    /// An integer division had divisor zero.
    DivisionByZero,
    /// Nested evaluation went deeper than the fuel allowed.
    RecursionLimit,
}

/// The mathematical shape of an `Error`, with names as byte strings.
#[verifier::ext_equal]
pub ghost enum ErrorView {
    UnknownWord(Seq<u8>),
    UnknownMethod(Seq<u8>),
    StackUnderflow(WhichStack),
    TypeMismatch { expected: Seq<u8>, found: Seq<u8> },
    MalformedDefinition(DefReason),
    IndexOutOfRange,
    UserError(Seq<u8>),
    Parse(ParseReason),
    DivisionByZero,
    RecursionLimit,
}

impl View for Error {
    type V = ErrorView;

    open spec fn view(&self) -> ErrorView {
        match self {
            Error::UnknownWord(s) => ErrorView::UnknownWord(s@),
            Error::UnknownMethod(s) => ErrorView::UnknownMethod(s@),
            Error::StackUnderflow(w) => ErrorView::StackUnderflow(*w),
            Error::TypeMismatch { expected, found } => (ErrorView::TypeMismatch {
                expected: expected@,
                found: found@,
            }),
            Error::MalformedDefinition(r) => ErrorView::MalformedDefinition(*r),
            Error::IndexOutOfRange => ErrorView::IndexOutOfRange,
            Error::UserError(m) => ErrorView::UserError(m@),
            Error::Parse(r) => ErrorView::Parse(*r),
            Error::DivisionByZero => ErrorView::DivisionByZero,
            Error::RecursionLimit => ErrorView::RecursionLimit,
        }
    }
}

} // verus!
