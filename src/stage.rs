use vstd::prelude::*;

verus! {

/// The parser expects the start line.
pub struct StartLine;

/// The parser expects header lines.
pub struct HeaderField;

/// The preamble has been read; what follows is the body.
pub struct MessageBody;

} // verus!
