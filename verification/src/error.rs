//! What is wrong with bytes that are not the structure they should be.
use vstd::prelude::*;

use crate::text::{dec, hex, push_dec, push_hex};

verus! {

/// Bytes that are not the structure they were read as.
#[derive(Clone, Copy, PartialEq, Eq, Debug)]
pub enum ParseError {
    /// Fewer bytes than the structure has.
    TooShort {
        /// The structure.
        structure: &'static str,
        /// Bytes it has.
        need: usize,
        /// Bytes there were.
        got: usize,
    },
    /// A value the format fixes is not there.
    BadMagic {
        /// The structure, and the field of it.
        structure: &'static str,
        /// What is there.
        found: u32,
        /// What the format fixes.
        expected: u32,
    },
}

impl ParseError {
    /// The message of the error.
    pub open spec fn text(self) -> Seq<char> {
        match self {
            ParseError::TooShort { structure, need, got } => structure@ + ": need "@ + dec(
                need as nat,
            ) + " bytes, got "@ + dec(got as nat),
            ParseError::BadMagic { structure, found, expected } => structure@ + ": bad signature "@
                + hex(found as nat, 8) + ", expected "@ + hex(expected as nat, 8),
        }
    }

    /// The message of the error.
    #[must_use]
    pub fn message(&self) -> (text: String)
        ensures
            text@ == self.text(),
    {
        let mut out = String::new();
        match *self {
            ParseError::TooShort { structure, need, got } => {
                out.append(structure);
                out.append(": need ");
                push_dec(&mut out, need as u64);
                out.append(" bytes, got ");
                push_dec(&mut out, got as u64);
            },
            ParseError::BadMagic { structure, found, expected } => {
                out.append(structure);
                out.append(": bad signature ");
                push_hex(&mut out, found as u64, 8);
                out.append(", expected ");
                push_hex(&mut out, expected as u64, 8);
            },
        }
        assert(out@ =~= self.text());
        out
    }
}

} // verus!
