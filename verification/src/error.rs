//! What goes wrong while a configuration is read.
use crate::number::{decimal, push_decimal};
use vstd::prelude::*;
use vstd::string::StringExecFns;

verus! {

/// The kinds of errors.
#[derive(Debug, Clone, Copy, PartialEq, Eq, Structural)]
pub enum ErrorKind {
    /// A line is neither blank, a comment, a section header nor a key with its value.
    Syntax,
    /// A key stands before the first section header.
    KeyOutsideSection,
    /// A key was to go into a section that the document does not hold.
    SectionNotInitialized,
    /// A text is not the spelling of any value.
    InvalidValue,
    /// A part of an object is not a key, the marker `==` and a value.
    InvalidPair,
    /// Arrays and objects are nested deeper than the decoder follows them.
    NestingTooDeep,
}

/// An error, with the line on which it was found and the text that caused it.
#[derive(Debug, PartialEq, Eq)]
pub struct ParseError {
    /// What went wrong.
    pub kind: ErrorKind,
    /// The number of the line, counted from 1.
    pub line: usize,
    /// The text at fault.
    pub text: String,
}

/// What a `ParseError` stands for.
pub struct Fault {
    /// What went wrong.
    pub kind: ErrorKind,
    /// The number of the line, counted from 1.
    pub line: nat,
    /// The text at fault.
    pub text: Seq<char>,
}

impl Clone for ParseError {
    /// A copy of the error.
    fn clone(&self) -> (r: Self)
        ensures
            r == *self,
    {
        ParseError { kind: self.kind, line: self.line, text: self.text.clone() }
    }
}

impl View for ParseError {
    type V = Fault;

    open spec fn view(&self) -> Fault {
        Fault { kind: self.kind, line: self.line as nat, text: self.text@ }
    }
}

impl Fault {
    /// The message that tells a reader of the error.
    pub open spec fn message(self) -> Seq<char> {
        match self.kind {
            ErrorKind::Syntax => "❌ Syntax error on line "@ + decimal(self.line) + ": '"@
                + self.text + "'"@,
            ErrorKind::KeyOutsideSection => "❌ Error on line "@ + decimal(self.line)
                + ": Key-value pair found outside of a section"@,
            ErrorKind::SectionNotInitialized => "❌ Error on line "@ + decimal(self.line)
                + ": Section '"@ + self.text + "' not initialized"@,
            ErrorKind::InvalidValue => "❌ Syntax error on line "@ + decimal(self.line)
                + ": Unable to parse value '"@ + self.text + "'"@,
            ErrorKind::InvalidPair => "❌ Syntax error on line "@ + decimal(self.line)
                + ": Invalid object pair '"@ + self.text + "'"@,
            ErrorKind::NestingTooDeep => "❌ Syntax error on line "@ + decimal(self.line)
                + ": Value nested too deeply '"@ + self.text + "'"@,
        }
    }
}

impl ParseError {
    /// The message that tells a reader of the error: what went wrong, on which line, and with
    /// which text.
    pub fn message(&self) -> (r: String)
        ensures
            r@ == self@.message(),
    {
        let mut r = String::new();
        match self.kind {
            ErrorKind::Syntax => {
                r.append("❌ Syntax error on line ");
                push_decimal(&mut r, self.line);
                r.append(": '");
                r.append(self.text.as_str());
                r.append("'");
            },
            ErrorKind::KeyOutsideSection => {
                r.append("❌ Error on line ");
                push_decimal(&mut r, self.line);
                r.append(": Key-value pair found outside of a section");
            },
            ErrorKind::SectionNotInitialized => {
                r.append("❌ Error on line ");
                push_decimal(&mut r, self.line);
                r.append(": Section '");
                r.append(self.text.as_str());
                r.append("' not initialized");
            },
            ErrorKind::InvalidValue => {
                r.append("❌ Syntax error on line ");
                push_decimal(&mut r, self.line);
                r.append(": Unable to parse value '");
                r.append(self.text.as_str());
                r.append("'");
            },
            ErrorKind::InvalidPair => {
                r.append("❌ Syntax error on line ");
                push_decimal(&mut r, self.line);
                r.append(": Invalid object pair '");
                r.append(self.text.as_str());
                r.append("'");
            },
            ErrorKind::NestingTooDeep => {
                r.append("❌ Syntax error on line ");
                push_decimal(&mut r, self.line);
                r.append(": Value nested too deeply '");
                r.append(self.text.as_str());
                r.append("'");
            },
        }
        assert(r@ =~= self@.message());
        r
    }
}

} // verus!
