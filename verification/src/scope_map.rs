//! The scope instantiator: walks a function's scope forest in ascending
//! index order, recursing on unvisited parents, and fills the debug-scope
//! table with one record per scope.  Proved to track the state machine in
//! [`crate::model`] exactly.

use vstd::prelude::*;

use crate::builder::{
    find_location, lemma_find_location_found, DebugInfoBuilder, LocationRecord,
};
use crate::debug_scope::{DebugScope, FunctionDebugContext};
use crate::discriminator::DiscriminatorTable;
use crate::mir::{body_wf, Body, DebugInfoLevel, VarDebugInfo};
use crate::model::{
    full_usage_of, pass_state, prefix_instantiated, record_valid, root_step, run_pass, scope_step,
    state_inv, usage_of, usage_view, lemma_run_latches, lemma_step_preserves_inv,
};
use crate::resolver::LocationResolver;

verus! {

/// The one fatal condition of the pass: the emitter could not encode a
/// discriminator into a cloned location.  The backend's invariants are
/// violated; compilation of the enclosing function must be aborted.
#[derive(Clone, Copy, Debug, PartialEq, Eq)]
pub enum ScopeMapError {
    /// A discriminator exceeded what a location can carry.
    DiscriminatorEncoding,
}

/// Computes the variable-usage set: with full debug info, exactly the
/// scopes named by at least one variable record; otherwise no set, meaning
/// the collapse decision never fires.
pub fn variable_usage_set(
    level: DebugInfoLevel,
    var_debug_info: &Vec<VarDebugInfo>,
    n: usize,
) -> (r: Option<Vec<bool>>)
    requires
        forall|i: int|
            0 <= i < var_debug_info@.len() ==> (#[trigger] var_debug_info@[i]).scope < n,
    ensures
        usage_view(r) == usage_of(level, var_debug_info@, n as int),
{
    match level {
        DebugInfoLevel::Full => {
            let mut vars: Vec<bool> = Vec::new();
            let mut i: usize = 0;
            while i < n
                invariant
                    i <= n,
                    vars@.len() == i,
                    forall|j: int| 0 <= j < i ==> !vars@[j],
                decreases n - i,
            {
                vars.push(false);
                i = i + 1;
            }
            let m: usize = var_debug_info.len();
            let mut k: usize = 0;
            while k < m
                invariant
                    k <= m,
                    m == var_debug_info@.len(),
                    vars@.len() == n,
                    forall|v: int|
                        0 <= v < m ==> (#[trigger] var_debug_info@[v]).scope < n,
                    forall|s: int|
                        0 <= s < n && vars@[s] ==> exists|v: int|
                            0 <= v < k && var_debug_info@[v].scope == s,
                    forall|v: int|
                        0 <= v < k ==> vars@[(#[trigger] var_debug_info@[v]).scope as int],
                decreases m - k,
            {
                let ghost prev = vars@;
                let sc: usize = var_debug_info[k].scope;
                vars[sc] = true;
                proof {
                    assert forall|s: int|
                        0 <= s < n && vars@[s] implies exists|v: int|
                        0 <= v < k + 1 && var_debug_info@[v].scope == s by {
                        if s == sc as int {
                            assert(0 <= k < k + 1 && var_debug_info@[k as int].scope == s);
                        } else {
                            assert(prev[s]);
                        }
                    }
                }
                k = k + 1;
            }
            proof {
                assert forall|s: int| 0 <= s < n implies vars@[s] == full_usage_of(
                    var_debug_info@,
                    n as int,
                )[s] by {
                    if exists|v: int| 0 <= v < m && var_debug_info@[v].scope == s {
                        let v = choose|v: int| 0 <= v < m && var_debug_info@[v].scope == s;
                        assert(vars@[(var_debug_info@[v]).scope as int]);
                    }
                }
                assert(vars@ =~= full_usage_of(var_debug_info@, n as int));
            }
            Some(vars)
        },
        DebugInfoLevel::Limited => None,
    }
}

/// Instantiates `scope`: a memoized no-op if it was already instantiated,
/// the root's file-bound resolution if it has no parent, and otherwise —
/// after instantiating the parent — either the collapse into the parent's
/// record or the materialization of a new node, with inlined-at resolution
/// and discriminator disambiguation.  Fails only when a discriminator
/// cannot be encoded.
#[verifier::rlimit(60)]
pub fn make_mir_scope(
    body: &Body,
    variables: &Option<Vec<bool>>,
    resolver: &LocationResolver,
    builder: &mut DebugInfoBuilder,
    debug_context: &mut FunctionDebugContext,
    instantiated: &mut Vec<bool>,
    discriminators: &mut DiscriminatorTable,
    scope: usize,
) -> (r: Result<(), ScopeMapError>)
    requires
        body_wf(*body),
        (*variables) matches Some(v) ==> v@.len() == body.source_scopes@.len(),
        scope < body.source_scopes@.len(),
        state_inv(
            pass_state(
                old(builder)@,
                old(discriminators)@,
                old(instantiated)@,
                old(debug_context)@,
            ),
            body.source_scopes@,
        ),
        prefix_instantiated(
            pass_state(
                old(builder)@,
                old(discriminators)@,
                old(instantiated)@,
                old(debug_context)@,
            ),
            scope as int,
        ),
    ensures
        ({
            let pre = pass_state(
                old(builder)@,
                old(discriminators)@,
                old(instantiated)@,
                old(debug_context)@,
            );
            let out = scope_step(
                body.source_scopes@,
                body.span_lo,
                usage_view(*variables),
                *resolver,
                pre,
                scope as int,
            );
            let post = pass_state(
                final(builder)@,
                final(discriminators)@,
                final(instantiated)@,
                final(debug_context)@,
            );
            &&& post == out.state
            &&& r.is_ok() == out.ok
            &&& (out.ok ==> state_inv(post, body.source_scopes@))
            &&& forall|j: int|
                0 <= j < body.source_scopes@.len() && j != scope
                    ==> post.instantiated[j] == pre.instantiated[j]
            &&& (out.ok && scope > 0 ==> post.instantiated[scope as int])
            &&& (r matches Err(e) ==> e == ScopeMapError::DiscriminatorEncoding)
        }),
    decreases scope,
{
    let ghost pre = pass_state(builder@, discriminators@, instantiated@, debug_context@);
    let ghost sd = body.source_scopes@;
    let ghost usage = usage_view(*variables);
    proof {
        lemma_step_preserves_inv(sd, body.span_lo, usage, *resolver, pre, scope as int);
    }
    if instantiated[scope] {
        return Ok(());
    }
    let scope_data = body.source_scopes[scope];
    let parent = match scope_data.parent {
        Some(p) => p,
        None => {
            // The root: resolve the function's own defining location and
            // store the file bounds into its pre-seeded record.
            let loc = resolver.resolve(body.span_lo);
            proof {
                assert(scope == 0);
            }
            let seeded = debug_context.scope_record(scope);
            debug_context.set_record(
                scope,
                DebugScope {
                    dbg_scope: seeded.dbg_scope,
                    inlined_at: seeded.inlined_at,
                    file_start_pos: loc.file_start_pos,
                    file_end_pos: loc.file_end_pos,
                },
            );
            return Ok(());
        },
    };
    proof {
        assert(parent < scope);
    }
    // Instantiate the parent first: a child's node may need the parent's
    // resolved node as its container.
    match make_mir_scope(
        body,
        variables,
        resolver,
        builder,
        debug_context,
        instantiated,
        discriminators,
        parent,
    ) {
        Ok(()) => {},
        Err(e) => {
            // Unreachable: the parent is either the root, whose step cannot
            // fail, or a scope the driver has already instantiated.
            proof {
                assert(false);
            }
            return Err(e);
        },
    }
    let ghost st0 = if parent == 0 && !pre.instantiated[0] {
        root_step(pre, *resolver, body.span_lo)
    } else {
        pre
    };
    proof {
        assert(pass_state(builder@, discriminators@, instantiated@, debug_context@) == st0);
        if parent > 0 {
            assert(pre.instantiated[parent as int]);
            assert(record_valid(pre.scopes[parent as int], pre));
        }
        assert(record_valid(st0.scopes[parent as int], st0));
    }
    let parent_rec = debug_context.scope_record(parent);
    let collapse = match variables {
        Some(vars) => !vars[scope] && scope_data.inlined.is_none(),
        None => false,
    };
    if collapse {
        // No variables bound here and no inlining: merge this scope into
        // its nearest ancestor with real content instead of emitting an
        // empty lexical container.
        debug_context.set_record(scope, parent_rec);
        instantiated[scope] = true;
        return Ok(());
    }
    let loc = resolver.resolve(scope_data.span_lo);
    let (dbg_scope, inlined_at) = match scope_data.inlined {
        Some(inl) => {
            // The node is the callee's own function-level scope: this code
            // is logically the body of the callee, inlined here.
            let node = builder.function_scope(inl.callee);
            // The caller-side location of the callsite, in the parent's
            // context, disambiguated when the same offset was seen before.
            let base = builder.create_location(
                parent_rec.dbg_scope,
                parent_rec.inlined_at,
                inl.callsite_lo,
            );
            let d = discriminators.next(inl.callsite_lo);
            proof {
                let rec0 = LocationRecord {
                    scope: parent_rec.dbg_scope,
                    inlined_at: parent_rec.inlined_at,
                    span_lo: inl.callsite_lo,
                    discriminator: 0,
                };
                if find_location(st0.locations, rec0) is Some {
                    lemma_find_location_found(st0.locations, rec0);
                }
                assert(builder@.locations[base as int] == rec0);
            }
            let at = if d == 0 {
                base
            } else {
                match builder.clone_with_discriminator(base, d) {
                    Some(l) => l,
                    None => {
                        return Err(ScopeMapError::DiscriminatorEncoding);
                    },
                }
            };
            (node, Some(at))
        },
        None => {
            // A fresh lexical block nested in the parent's node, anchored
            // at this scope's own span start.
            let node = builder.create_lexical_block(parent_rec.dbg_scope, loc.file, loc.line, loc.col);
            (node, parent_rec.inlined_at)
        },
    };
    debug_context.set_record(
        scope,
        DebugScope {
            dbg_scope,
            inlined_at,
            file_start_pos: loc.file_start_pos,
            file_end_pos: loc.file_end_pos,
        },
    );
    instantiated[scope] = true;
    Ok(())
}

/// Builds the whole debug-scope table for one function: computes the
/// variable-usage set once, then instantiates every scope in ascending
/// order.  On failure the table is abandoned with the error.
pub fn compute_mir_scopes(
    body: &Body,
    level: DebugInfoLevel,
    resolver: &LocationResolver,
    builder: &mut DebugInfoBuilder,
    debug_context: &mut FunctionDebugContext,
) -> (r: Result<(), ScopeMapError>)
    requires
        body_wf(*body),
        old(debug_context)@.len() == body.source_scopes@.len(),
        old(builder)@.limit < u32::MAX,
        body.source_scopes@.len() > 0 ==> old(debug_context)@[0].dbg_scope < old(
            builder,
        )@.nodes.len(),
        body.source_scopes@.len() > 0 ==> old(debug_context)@[0].inlined_at is None,
    ensures
        ({
            let n = body.source_scopes@.len() as int;
            let init = pass_state(
                old(builder)@,
                Map::<u32, u32>::empty(),
                Seq::new(n as nat, |i: int| false),
                old(debug_context)@,
            );
            let out = run_pass(
                body.source_scopes@,
                body.span_lo,
                usage_of(level, body.var_debug_info@, n),
                *resolver,
                init,
                n,
            );
            &&& final(builder)@.nodes == out.state.nodes
            &&& final(builder)@.locations == out.state.locations
            &&& final(builder)@.limit == out.state.limit
            &&& final(debug_context)@ == out.state.scopes
            &&& r.is_ok() == out.ok
            &&& (r matches Err(e) ==> e == ScopeMapError::DiscriminatorEncoding)
        }),
{
    let n: usize = body.source_scopes.len();
    let variables = variable_usage_set(level, &body.var_debug_info, n);
    let mut instantiated: Vec<bool> = Vec::new();
    let mut i: usize = 0;
    while i < n
        invariant
            i <= n,
            instantiated@.len() == i,
            forall|j: int| 0 <= j < i ==> !instantiated@[j],
        decreases n - i,
    {
        instantiated.push(false);
        i = i + 1;
    }
    let mut discriminators = DiscriminatorTable::new();
    let ghost sd = body.source_scopes@;
    let ghost usage = usage_of(level, body.var_debug_info@, n as int);
    let ghost init = pass_state(builder@, discriminators@, instantiated@, debug_context@);
    proof {
        assert(instantiated@ =~= Seq::new(n as nat, |i: int| false));
        assert(usage_view(variables) == usage);
        assert(state_inv(init, sd));
    }
    let mut idx: usize = 0;
    while idx < n
        invariant
            idx <= n,
            n == sd.len(),
            sd == body.source_scopes@,
            usage == usage_of(level, body.var_debug_info@, n as int),
            init == pass_state(
                old(builder)@,
                Map::<u32, u32>::empty(),
                Seq::new(sd.len(), |i: int| false),
                old(debug_context)@,
            ),
            body_wf(*body),
            usage_view(variables) == usage,
            variables matches Some(v) ==> v@.len() == n,
            run_pass(sd, body.span_lo, usage, *resolver, init, idx as int).ok,
            pass_state(builder@, discriminators@, instantiated@, debug_context@) == run_pass(
                sd,
                body.span_lo,
                usage,
                *resolver,
                init,
                idx as int,
            ).state,
            state_inv(
                pass_state(builder@, discriminators@, instantiated@, debug_context@),
                sd,
            ),
            prefix_instantiated(
                pass_state(builder@, discriminators@, instantiated@, debug_context@),
                idx as int,
            ),
        decreases n - idx,
    {
        let ghost cur = pass_state(builder@, discriminators@, instantiated@, debug_context@);
        match make_mir_scope(
            body,
            &variables,
            resolver,
            builder,
            debug_context,
            &mut instantiated,
            &mut discriminators,
            idx,
        ) {
            Ok(()) => {
                proof {
                    let out = scope_step(sd, body.span_lo, usage, *resolver, cur, idx as int);
                    assert(run_pass(sd, body.span_lo, usage, *resolver, init, idx as int + 1)
                        == out);
                }
            },
            Err(e) => {
                proof {
                    let out = scope_step(sd, body.span_lo, usage, *resolver, cur, idx as int);
                    assert(run_pass(sd, body.span_lo, usage, *resolver, init, idx as int + 1)
                        == out);
                    lemma_run_latches(
                        sd,
                        body.span_lo,
                        usage,
                        *resolver,
                        init,
                        idx as int + 1,
                        n as int,
                    );
                }
                return Err(e);
            },
        }
        idx = idx + 1;
    }
    Ok(())
}

} // verus!
