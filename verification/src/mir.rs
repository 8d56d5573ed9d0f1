//! The input side of the pass: a function body's scope forest and its
//! variable-debug-info records, as handed down by earlier compiler stages.

use vstd::prelude::*;

verus! {

/// Marks a scope as holding code inlined from another function.
#[derive(Clone, Copy, Debug, PartialEq, Eq)]
pub struct InlinedInfo {
    /// Opaque identity of the callee function whose body was inlined here.
    pub callee: u64,
    /// Byte offset of the start of the callsite span, in the caller's frame.
    pub callsite_lo: u32,
}

/// One lexical source scope of a function body.  Scopes form a forest over
/// their indices in the body's scope table; the single root has no parent.
#[derive(Clone, Copy, Debug, PartialEq, Eq)]
pub struct SourceScopeData {
    /// Index of the enclosing scope, absent only for the root.
    pub parent: Option<usize>,
    /// Byte offset of the start of this scope's own span.
    pub span_lo: u32,
    /// Present when this scope's code was inlined from another function.
    pub inlined: Option<InlinedInfo>,
}

/// Attributes one user-visible variable to the scope it is bound in.
#[derive(Clone, Copy, Debug, PartialEq, Eq)]
pub struct VarDebugInfo {
    /// Index of the scope that binds the variable.
    pub scope: usize,
}

/// How much debug information the session asked for.
#[derive(Clone, Copy, Debug, PartialEq, Eq)]
pub enum DebugInfoLevel {
    /// Reduced debug information: no per-variable records will be emitted.
    Limited,
    /// Full debug information, including variable records.
    Full,
}

/// The parts of a lowered function body that the pass consumes.
pub struct Body {
    /// Byte offset of the start of the function's own defining span.
    pub span_lo: u32,
    /// The scope forest, indexed by scope identifier.
    pub source_scopes: Vec<SourceScopeData>,
    /// The function's variable-debug-info records.
    pub var_debug_info: Vec<VarDebugInfo>,
}

/// A well-formed scope forest: scope 0 is the only root, and every other
/// scope's parent strictly precedes it, so the parent relation is acyclic.
pub open spec fn scopes_wf(scopes: Seq<SourceScopeData>) -> bool {
    &&& scopes.len() > 0 ==> scopes[0].parent is None
    &&& forall|i: int|
        1 <= i < scopes.len() ==> ((#[trigger] scopes[i].parent) matches Some(p) && p < i)
}

/// A well-formed body: the scope forest is well-formed and every variable
/// record names a scope of this function.
pub open spec fn body_wf(body: Body) -> bool {
    &&& scopes_wf(body.source_scopes@)
    &&& forall|i: int|
        0 <= i < body.var_debug_info@.len() ==> (#[trigger] body.var_debug_info@[i]).scope
            < body.source_scopes@.len()
}

} // verus!
