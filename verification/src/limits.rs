//! The budgets that a caller sets for the engine, and the ways in which a
//! query can fail at run time.
//!
//! Resolution need not end: a rule set may rewrite for ever, and without an
//! occurs check a variable may be bound to a term that holds it. The engine
//! itself sets no bound. Every operation that could run on takes its budget
//! from the caller and reports when the budget is used up.

use vstd::prelude::*;

verus! {

/// Why a query could not be answered.
#[derive(Debug, Clone, Copy, PartialEq, Eq, Hash, Structural)]
pub enum EngineError {
    /// Terms were nested, through bindings, deeper than `Limits::depth`.
    DepthLimit,
    /// No answer was reached within `Limits::steps` resolution steps.
    StepLimit,
    /// No normal form was reached within `Limits::rewrites` rewrites.
    RewriteLimit,
    /// No generation is left to rename a clause apart.
    VariableSupply,
    /// The request names a module that the engine does not hold.
    UnknownModule,
}

/// The budgets of one request.
#[derive(Debug, Clone, Copy, PartialEq, Eq, Hash, Structural)]
pub struct Limits {
    /// How deep unification and substitution may descend into terms,
    /// counting each binding followed as one level. Each level takes room
    /// on the call stack, so the depth is to be set with the stack in mind.
    pub depth: u64,
    /// How many resolution steps may be spent on one answer.
    pub steps: u64,
    /// How many rewrites may be made to reach a normal form.
    pub rewrites: u64,
}

} // verus!
