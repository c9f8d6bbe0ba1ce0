//! The errors an interpreted line can raise, and the text each one prints.
use vstd::prelude::*;

verus! {

/// The characters of each string of a sequence.
pub open spec fn strings_view(v: Seq<String>) -> Seq<Seq<char>> {
    v.map_values(|s: String| s@)
}

/// The errors that running a line can raise.
pub enum Error {
    Underflow,
    Overflow,
    DivisionByZero,
    InvalidWord,
    UnknownWord,
}

impl Error {
    /// The text printed for the error, a trailing newline included.
    pub open spec fn message(self) -> Seq<char> {
        match self {
            Error::Underflow => "stack-underflow\n"@,
            Error::Overflow => "stack-overflow\n"@,
            Error::DivisionByZero => "division-by-zero\n"@,
            Error::InvalidWord => "invalid-word\n"@,
            Error::UnknownWord => "?\n"@,
        }
    }

    /// The text printed for the error.
    pub fn description(&self) -> (s: String)
        ensures
            s@ == self.message(),
    {
        match *self {
            Error::Underflow => String::from_str("stack-underflow\n"),
            Error::Overflow => String::from_str("stack-overflow\n"),
            Error::DivisionByZero => String::from_str("division-by-zero\n"),
            Error::InvalidWord => String::from_str("invalid-word\n"),
            Error::UnknownWord => String::from_str("?\n"),
        }
    }

    /// Reports the error on the output buffer: its text is appended, and the
    /// result is always `false`, the failure that callers hand on.
    pub fn throw_error(&self, buffer: &mut Vec<String>) -> (ok: bool)
        ensures
            !ok,
            strings_view(final(buffer)@) == strings_view(old(buffer)@).push(self.message()),
    {
        let d = self.description();
        buffer.push(d);
        assert(strings_view(buffer@) =~= strings_view(old(buffer)@).push(self.message()));
        false
    }
}

} // verus!
