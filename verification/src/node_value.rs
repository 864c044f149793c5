//! What the graph asks of a node value type.  A node is an opaque value;
//! the container only ever compares two of them, copies one out, and — for
//! the text format — reads one from a token and prints one as a token.
//! Each obligation is a small trait whose executable method is tied to a
//! specification-level meaning, so that contracts over graphs of any node
//! type stay exact.

use crate::numtext::all_dec_digits;
use crate::numtext::dec_of;
use crate::numtext::dec_value;
use crate::numtext::parse_decimal;
use crate::numtext::to_decimal;
use vstd::prelude::*;

verus! {

/// An equatable, copyable node value: the two operations every graph needs.
pub trait NodeKey: Sized {
    /// Decides spec-level equality of two values.
    fn key_eq(&self, other: &Self) -> (b: bool)
        ensures
            b <==> (self == other),
    ;

    /// Hands out a copy equal to the original.
    fn key_clone(&self) -> (r: Self)
        ensures
            r == *self,
    ;
}

/// A node value that can be read from one token of the text format.
pub trait NodeParse: Sized {
    /// The value a token denotes, if any.
    spec fn parse_spec(s: Seq<char>) -> Option<Self>;

    /// Reads a token, returning exactly what `parse_spec` says it denotes.
    fn parse_token(s: &str) -> (r: Option<Self>)
        ensures
            r == Self::parse_spec(s@),
    ;
}

/// A node value that can be printed as one token of the text format.
pub trait NodeDisplay: Sized {
    /// The token this value prints as.
    spec fn display_spec(&self) -> Seq<char>;

    /// Prints the value, returning exactly the `display_spec` characters.
    fn to_token(&self) -> (r: String)
        ensures
            r@ == self.display_spec(),
    ;
}

impl NodeKey for usize {
    fn key_eq(&self, other: &Self) -> bool {
        *self == *other
    }

    fn key_clone(&self) -> Self {
        *self
    }
}

impl NodeKey for i32 {
    fn key_eq(&self, other: &Self) -> bool {
        *self == *other
    }

    fn key_clone(&self) -> Self {
        *self
    }
}

impl NodeKey for u64 {
    fn key_eq(&self, other: &Self) -> bool {
        *self == *other
    }

    fn key_clone(&self) -> Self {
        *self
    }
}

impl NodeParse for usize {
    open spec fn parse_spec(s: Seq<char>) -> Option<usize> {
        if all_dec_digits(s) && dec_value(s) <= usize::MAX {
            Some(dec_value(s) as usize)
        } else {
            None
        }
    }

    fn parse_token(s: &str) -> Option<usize> {
        parse_decimal(s)
    }
}

impl NodeDisplay for usize {
    open spec fn display_spec(&self) -> Seq<char> {
        dec_of(*self as nat)
    }

    fn to_token(&self) -> String {
        to_decimal(*self)
    }
}

} // verus!
