//! The output side of the pass: one finished `DebugScope` record per source
//! scope, held in the function's debug-scope table.

use vstd::prelude::*;

verus! {

/// The finished debug-scope record of one source scope.  The two handles are
/// opaque: they are meaningful only to the debug-info builder that dealt
/// them out.
#[derive(Clone, Copy, Debug, PartialEq, Eq)]
pub struct DebugScope {
    /// Handle of the materialized debug node this scope resolves to.
    pub dbg_scope: usize,
    /// Handle of the caller-side location this scope's code was inlined at,
    /// absent when no enclosing inlining exists.
    pub inlined_at: Option<usize>,
    /// Byte offset at which the scope's originating file starts.
    pub file_start_pos: u32,
    /// Byte offset at which the scope's originating file ends.
    pub file_end_pos: u32,
}

/// The per-function debug-scope table, indexed by source-scope identifier.
/// It is pre-seeded by the caller with the function's own debug node and
/// filled in by the pass; downstream stages read it when attaching debug
/// locations to emitted instructions.
pub struct FunctionDebugContext {
    scopes: Vec<DebugScope>,
}

impl View for FunctionDebugContext {
    type V = Seq<DebugScope>;

    closed spec fn view(&self) -> Seq<DebugScope> {
        self.scopes@
    }
}

impl FunctionDebugContext {
    /// Seeds a table of `n` records with the function's own debug node
    /// `fn_scope`, no inlining, and unresolved file bounds.
    pub fn new(fn_scope: usize, n: usize) -> (r: Self)
        ensures
            r@.len() == n,
            forall|i: int|
                0 <= i < n ==> r@[i] == (DebugScope {
                    dbg_scope: fn_scope,
                    inlined_at: None,
                    file_start_pos: 0,
                    file_end_pos: 0,
                }),
    {
        let seed = DebugScope { dbg_scope: fn_scope, inlined_at: None, file_start_pos: 0, file_end_pos: 0 };
        let mut scopes: Vec<DebugScope> = Vec::new();
        let mut i: usize = 0;
        while i < n
            invariant
                i <= n,
                scopes@.len() == i,
                forall|j: int| 0 <= j < i ==> scopes@[j] == seed,
            decreases n - i,
        {
            scopes.push(seed);
            i = i + 1;
        }
        FunctionDebugContext { scopes }
    }

    /// Number of records in the table.
    pub fn len(&self) -> (r: usize)
        ensures
            r == self@.len(),
    {
        self.scopes.len()
    }

    /// The record of scope `i`.
    pub fn scope_record(&self, i: usize) -> (r: DebugScope)
        requires
            i < self@.len(),
        ensures
            r == self@[i as int],
    {
        self.scopes[i]
    }

    /// Overwrites the record of scope `i`.
    pub(crate) fn set_record(&mut self, i: usize, rec: DebugScope)
        requires
            i < old(self)@.len(),
        ensures
            final(self)@ == old(self)@.update(i as int, rec),
    {
        self.scopes[i] = rec;
    }
}

} // verus!
