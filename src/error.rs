//! Parse errors with the position at which they arose.
use vstd::prelude::*;
use crate::chars::{decimal, push_decimal, push_str};

verus! {

/// An error: a message and the line and column at which it arose, both
/// counted from 1; 0 stands for unknown.
pub struct Error {
    /// The line.
    pub line: usize,
    /// The column.
    pub column: usize,
    /// The message.
    pub message: String,
}

/// How an error reads: the message, then the line and column where they
/// are known.
pub open spec fn error_text(message: Seq<char>, line: nat, column: nat) -> Seq<char> {
    if line > 0 && column > 0 {
        message + " (line "@ + decimal(line) + ", column "@ + decimal(column) + ")"@
    } else if line > 0 {
        message + " (line "@ + decimal(line) + ")"@
    } else {
        message
    }
}

impl Error {
    /// An error at `(line, column)` with the message.
    pub fn new(position: (usize, usize), message: String) -> (r: Error)
        ensures
            r.line == position.0,
            r.column == position.1,
            r.message@ == message@,
    {
        Error { line: position.0, column: position.1, message }
    }

    /// The message alone.
    pub fn description(&self) -> (r: &str)
        ensures
            r@ == self.message@,
    {
        self.message.as_str()
    }

    /// The message with the position where it is known.
    pub fn to_string(&self) -> (r: String)
        ensures
            r@ == error_text(self.message@, self.line as nat, self.column as nat),
    {
        let mut r = self.message.clone();
        if self.line > 0 {
            push_str(&mut r, " (line ");
            push_decimal(&mut r, self.line as u64);
            if self.column > 0 {
                push_str(&mut r, ", column ");
                push_decimal(&mut r, self.column as u64);
            }
            push_str(&mut r, ")");
        }
        proof {
            let m = self.message@;
            let l = decimal(self.line as nat);
            let c = decimal(self.column as nat);
            if self.line > 0 && self.column > 0 {
                assert(r@ =~= m + " (line "@ + l + ", column "@ + c + ")"@);
            } else if self.line > 0 {
                assert(r@ =~= m + " (line "@ + l + ")"@);
            }
        }
        r
    }
}

} // verus!
