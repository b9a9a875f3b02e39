//! Runtime traps: the line that is printed when the program cannot go on,
//! and the exit code that the process ends with.

use vstd::prelude::*;
use vstd::string::StringExecFns;

verus! {

/// A condition that ends the program.
#[derive(Clone, Copy, Debug, PartialEq, Eq, Structural)]
pub enum Trap {
    /// A built-in function was handed an object it cannot work on.
    InvalidArg,
    /// Division by zero.
    DivZero,
    /// An index outside a list or string.
    OutOfBound,
    /// An operation on `None`.
    NoneOp,
}

impl Trap {
    /// The exit code of the process.
    pub open spec fn code(self) -> int {
        match self {
            Trap::InvalidArg => 1,
            Trap::DivZero => 2,
            Trap::OutOfBound => 3,
            Trap::NoneOp => 4,
        }
    }

    /// The line printed before the process exits.
    pub open spec fn text(self) -> Seq<char> {
        match self {
            Trap::InvalidArg => "Invalid argument"@,
            Trap::DivZero => "Division by zero"@,
            Trap::OutOfBound => "Index out of bounds"@,
            Trap::NoneOp => "Operation on None"@,
        }
    }

    /// The exit code of the process.
    pub fn exit_status(self) -> (code: i32)
        ensures
            code == self.code(),
    {
        match self {
            Trap::InvalidArg => 1,
            Trap::DivZero => 2,
            Trap::OutOfBound => 3,
            Trap::NoneOp => 4,
        }
    }

    /// The line printed before the process exits.
    pub fn message(self) -> (line: &'static str)
        ensures
            line@ == self.text(),
    {
        match self {
            Trap::InvalidArg => "Invalid argument",
            Trap::DivZero => "Division by zero",
            Trap::OutOfBound => "Index out of bounds",
            Trap::NoneOp => "Operation on None",
        }
    }
}

/// The trap for a type or argument error.
pub fn invalid_arg() -> (trap: Trap)
    ensures
        trap == Trap::InvalidArg,
{
    Trap::InvalidArg
}

/// The trap for a division by zero.
pub fn div_zero() -> (trap: Trap)
    ensures
        trap == Trap::DivZero,
{
    Trap::DivZero
}

/// The trap for an index out of bounds.
pub fn out_of_bound() -> (trap: Trap)
    ensures
        trap == Trap::OutOfBound,
{
    Trap::OutOfBound
}

/// The trap for an operation on `None`.
pub fn none_op() -> (trap: Trap)
    ensures
        trap == Trap::NoneOp,
{
    Trap::NoneOp
}

/// The line that reports the fatal error `message`.
pub fn fatal(message: &str) -> (line: String)
    ensures
        line@ == "Fatal error: "@ + message@,
{
    String::from_str("Fatal error: ").concat(message)
}

} // verus!
