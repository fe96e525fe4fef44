use vstd::prelude::*;

verus! {

/// Why a line of instructions was refused; each kind carries the line number.
pub enum ErrorKind {
    /// The line is not a call, or names no known command.
    InvalidInstruction(String, usize),
    /// The command got too many or too few arguments.
    WrongNumberOfArguments(String, usize),
    /// The command does not take a named argument of this name.
    InvalidArgument(String, String, usize),
    /// A plain argument follows a named one.
    NamedArgAfterPlainArg(usize),
}

/// Mathematical view of an `ErrorKind`.
pub enum ErrV {
    InvalidInstruction(Seq<char>, nat),
    WrongNumberOfArguments(Seq<char>, nat),
    InvalidArgument(Seq<char>, Seq<char>, nat),
    NamedArgAfterPlainArg(nat),
}

impl View for ErrorKind {
    type V = ErrV;

    open spec fn view(&self) -> ErrV {
        match self {
            ErrorKind::InvalidInstruction(l, n) => ErrV::InvalidInstruction(l@, *n as nat),
            ErrorKind::WrongNumberOfArguments(c, n) => ErrV::WrongNumberOfArguments(c@, *n as nat),
            ErrorKind::InvalidArgument(c, a, n) => ErrV::InvalidArgument(c@, a@, *n as nat),
            ErrorKind::NamedArgAfterPlainArg(n) => ErrV::NamedArgAfterPlainArg(*n as nat),
        }
    }
}

} // verus!
