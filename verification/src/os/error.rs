//! Error codes of the operating system, and the kinds of them the client
//! tells apart.
use vstd::prelude::*;

verus! {

/// The kinds of error that the client tells apart.
#[derive(Debug, Clone, Copy, PartialEq, Eq)]
pub enum ErrorType {
    FileNotFound,
    PathNotFound,
    AccessDenied,
    SharingViolation,
    InvalidParameter,
    DirAlreadyExists,
}

/// An error code of the operating system.
#[derive(Debug, Clone, Copy)]
pub struct ErrorCode(u32);

/// The codes whose kind is known.
pub open spec fn known_code(c: u32) -> bool {
    c == 2 || c == 3 || c == 5 || c == 32 || c == 87 || c == 183
}

/// The kind of the known code `c`.
pub open spec fn type_of(c: u32) -> ErrorType {
    if c == 2 {
        ErrorType::FileNotFound
    } else if c == 3 {
        ErrorType::PathNotFound
    } else if c == 5 {
        ErrorType::AccessDenied
    } else if c == 32 {
        ErrorType::SharingViolation
    } else if c == 87 {
        ErrorType::InvalidParameter
    } else {
        ErrorType::DirAlreadyExists
    }
}

impl ErrorCode {
    /// The number of the code.
    pub closed spec fn value(&self) -> u32 {
        self.0
    }

    /// The error of code `code`.
    pub fn new(code: u32) -> (e: Self)
        ensures
            e.value() == code,
    {
        Self(code)
    }

    /// The number of the code.
    pub fn code(&self) -> (c: u32)
        ensures
            c == self.value(),
    {
        self.0
    }

    /// The kind of the error, for a code whose kind is known.
    pub fn typ(&self) -> (t: ErrorType)
        requires
            known_code(self.value()),
        ensures
            t == type_of(self.value()),
    {
        match self.0 {
            2 => ErrorType::FileNotFound,
            3 => ErrorType::PathNotFound,
            5 => ErrorType::AccessDenied,
            32 => ErrorType::SharingViolation,
            87 => ErrorType::InvalidParameter,
            _ => ErrorType::DirAlreadyExists,
        }
    }
}

} // verus!
