//! Statements. The grammar exercised by the parsers does not build these
//! yet; the shape is kept for callers that assemble assignments themselves.

use vstd::prelude::*;
use crate::expr::Expression;
use crate::value::Identifier;

verus! {

/// An assignment of an expression to a named destination.
pub enum Statement {
    Assignment { dest: Identifier, src: Expression },
}

} // verus!
