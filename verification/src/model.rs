//! The mathematical model of the pass: a state machine whose single step
//! instantiates one scope.  The executable pass in `scope_map` is proved to
//! track this model exactly, and the laws in `laws` are proved about it.

use vstd::prelude::*;

use crate::builder::{find_function_scope, find_location, BuilderView, LocationRecord, NodeRecord};
use crate::debug_scope::DebugScope;
use crate::mir::{DebugInfoLevel, SourceScopeData, VarDebugInfo};
use crate::resolver::LocationResolver;

verus! {

/// Everything the pass mutates: the builder's nodes and locations, the
/// discriminator table, the instantiated set and the debug-scope table.
#[verifier::ext_equal]
pub ghost struct PassState {
    /// Nodes materialized so far; a handle is an index.
    pub nodes: Seq<NodeRecord>,
    /// Locations materialized so far; a handle is an index.
    pub locations: Seq<LocationRecord>,
    /// Largest encodable discriminator.
    pub limit: u32,
    /// Callsite byte offset to count of prior inlining events there.
    pub discriminators: Map<u32, u32>,
    /// Which scopes have been recorded as instantiated.
    pub instantiated: Seq<bool>,
    /// The debug-scope table.
    pub scopes: Seq<DebugScope>,
}

/// A step's result: the new state, and whether the step succeeded.  The
/// only failure is a discriminator the emitter cannot encode.
#[verifier::ext_equal]
pub ghost struct StepOutcome {
    /// The state after the step.
    pub state: PassState,
    /// False exactly when the step hit the fatal clone failure.
    pub ok: bool,
}

/// Assembles a pass state from the views of the four mutable pieces.
pub open spec fn pass_state(
    b: BuilderView,
    discriminators: Map<u32, u32>,
    instantiated: Seq<bool>,
    scopes: Seq<DebugScope>,
) -> PassState {
    PassState {
        nodes: b.nodes,
        locations: b.locations,
        limit: b.limit,
        discriminators,
        instantiated,
        scopes,
    }
}

/// The usage set as ghost data: present exactly when full debug info is on.
pub open spec fn usage_view(variables: Option<Vec<bool>>) -> Option<Seq<bool>> {
    match variables {
        Some(v) => Some(v@),
        None => None,
    }
}

/// The usage set that full debug info computes for `n` scopes: scope `i` is
/// marked exactly when some variable record names it.
pub open spec fn full_usage_of(vars: Seq<VarDebugInfo>, n: int) -> Seq<bool> {
    Seq::new(n as nat, |i: int| exists|v: int| 0 <= v < vars.len() && vars[v].scope == i)
}

/// The usage set the pass works with, given the requested debug level.
pub open spec fn usage_of(level: DebugInfoLevel, vars: Seq<VarDebugInfo>, n: int) -> Option<
    Seq<bool>,
> {
    if level is Full {
        Some(full_usage_of(vars, n))
    } else {
        None
    }
}

/// The collapse decision: a usage set is present, the scope binds no
/// variable, and the scope is not inlined.
pub open spec fn collapse_applies(
    sd: Seq<SourceScopeData>,
    usage: Option<Seq<bool>>,
    s: int,
) -> bool {
    &&& usage matches Some(u) && !u[s]
    &&& sd[s].inlined is None
}

/// Instantiating the root: resolve the function's own defining location and
/// store the file bounds into the root's pre-seeded record.  The root's
/// node and absent `inlined_at` are left as seeded.
pub open spec fn root_step(
    st: PassState,
    resolver: LocationResolver,
    fn_span_lo: u32,
) -> PassState {
    let res = resolver.resolve_spec(fn_span_lo);
    PassState {
        nodes: st.nodes,
        locations: st.locations,
        limit: st.limit,
        discriminators: st.discriminators,
        instantiated: st.instantiated,
        scopes: st.scopes.update(
            0,
            DebugScope {
                dbg_scope: st.scopes[0].dbg_scope,
                inlined_at: st.scopes[0].inlined_at,
                file_start_pos: res.file_start_pos,
                file_end_pos: res.file_end_pos,
            },
        ),
    }
}

/// Instantiating scope `s`: memoized return, root handling, the collapse
/// decision, or materialization of a new node with inlined-at resolution.
pub open spec fn scope_step(
    sd: Seq<SourceScopeData>,
    fn_span_lo: u32,
    usage: Option<Seq<bool>>,
    resolver: LocationResolver,
    st: PassState,
    s: int,
) -> StepOutcome {
    if st.instantiated[s] {
        StepOutcome { state: st, ok: true }
    } else {
        match sd[s].parent {
            None => StepOutcome { state: root_step(st, resolver, fn_span_lo), ok: true },
            Some(p) => {
                let st0 = if p == 0 && !st.instantiated[0] {
                    root_step(st, resolver, fn_span_lo)
                } else {
                    st
                };
                let parent_rec = st0.scopes[p as int];
                if collapse_applies(sd, usage, s) {
                    StepOutcome {
                        state: PassState {
                            nodes: st0.nodes,
                            locations: st0.locations,
                            limit: st0.limit,
                            discriminators: st0.discriminators,
                            instantiated: st0.instantiated.update(s, true),
                            scopes: st0.scopes.update(s, parent_rec),
                        },
                        ok: true,
                    }
                } else {
                    let res = resolver.resolve_spec(sd[s].span_lo);
                    match sd[s].inlined {
                        Some(inl) => {
                            let nodes1 = if find_function_scope(st0.nodes, inl.callee) is Some {
                                st0.nodes
                            } else {
                                st0.nodes.push(NodeRecord::FunctionScope { callee: inl.callee })
                            };
                            let dbg_node: usize = match find_function_scope(st0.nodes, inl.callee) {
                                Some(i) => i as usize,
                                None => st0.nodes.len() as usize,
                            };
                            let rec0 = LocationRecord {
                                scope: parent_rec.dbg_scope,
                                inlined_at: parent_rec.inlined_at,
                                span_lo: inl.callsite_lo,
                                discriminator: 0,
                            };
                            let locs1 = if find_location(st0.locations, rec0) is Some {
                                st0.locations
                            } else {
                                st0.locations.push(rec0)
                            };
                            let base: usize = match find_location(st0.locations, rec0) {
                                Some(i) => i as usize,
                                None => st0.locations.len() as usize,
                            };
                            let d: u32 = if st0.discriminators.contains_key(inl.callsite_lo) {
                                ((st0.discriminators[inl.callsite_lo] + 1) as u32)
                            } else {
                                0u32
                            };
                            let discr1 = st0.discriminators.insert(inl.callsite_lo, d);
                            if d == 0 {
                                let record = DebugScope {
                                    dbg_scope: dbg_node,
                                    inlined_at: Some(base),
                                    file_start_pos: res.file_start_pos,
                                    file_end_pos: res.file_end_pos,
                                };
                                StepOutcome {
                                    state: PassState {
                                        nodes: nodes1,
                                        locations: locs1,
                                        limit: st0.limit,
                                        discriminators: discr1,
                                        instantiated: st0.instantiated.update(s, true),
                                        scopes: st0.scopes.update(s, record),
                                    },
                                    ok: true,
                                }
                            } else if d > st0.limit {
                                StepOutcome {
                                    state: PassState {
                                        nodes: nodes1,
                                        locations: locs1,
                                        limit: st0.limit,
                                        discriminators: discr1,
                                        instantiated: st0.instantiated,
                                        scopes: st0.scopes,
                                    },
                                    ok: false,
                                }
                            } else {
                                let recd = LocationRecord {
                                    scope: parent_rec.dbg_scope,
                                    inlined_at: parent_rec.inlined_at,
                                    span_lo: inl.callsite_lo,
                                    discriminator: d,
                                };
                                let locs2 = if find_location(locs1, recd) is Some {
                                    locs1
                                } else {
                                    locs1.push(recd)
                                };
                                let loc: usize = match find_location(locs1, recd) {
                                    Some(i) => i as usize,
                                    None => locs1.len() as usize,
                                };
                                let record = DebugScope {
                                    dbg_scope: dbg_node,
                                    inlined_at: Some(loc),
                                    file_start_pos: res.file_start_pos,
                                    file_end_pos: res.file_end_pos,
                                };
                                StepOutcome {
                                    state: PassState {
                                        nodes: nodes1,
                                        locations: locs2,
                                        limit: st0.limit,
                                        discriminators: discr1,
                                        instantiated: st0.instantiated.update(s, true),
                                        scopes: st0.scopes.update(s, record),
                                    },
                                    ok: true,
                                }
                            }
                        },
                        None => {
                            let node: usize = st0.nodes.len() as usize;
                            let nodes1 = st0.nodes.push(
                                NodeRecord::LexicalBlock {
                                    parent: parent_rec.dbg_scope,
                                    file: res.file,
                                    line: res.line,
                                    col: res.col,
                                },
                            );
                            let record = DebugScope {
                                dbg_scope: node,
                                inlined_at: parent_rec.inlined_at,
                                file_start_pos: res.file_start_pos,
                                file_end_pos: res.file_end_pos,
                            };
                            StepOutcome {
                                state: PassState {
                                    nodes: nodes1,
                                    locations: st0.locations,
                                    limit: st0.limit,
                                    discriminators: st0.discriminators,
                                    instantiated: st0.instantiated.update(s, true),
                                    scopes: st0.scopes.update(s, record),
                                },
                                ok: true,
                            }
                        },
                    }
                }
            },
        }
    }
}

/// Running the pass over scopes `0 .. k` in ascending order, stopping at
/// the first failure.
pub open spec fn run_pass(
    sd: Seq<SourceScopeData>,
    fn_span_lo: u32,
    usage: Option<Seq<bool>>,
    resolver: LocationResolver,
    init: PassState,
    k: int,
) -> StepOutcome
    decreases k,
{
    if k <= 0 {
        StepOutcome { state: init, ok: true }
    } else {
        let prev = run_pass(sd, fn_span_lo, usage, resolver, init, k - 1);
        if prev.ok {
            scope_step(sd, fn_span_lo, usage, resolver, prev.state, k - 1)
        } else {
            prev
        }
    }
}

/// A record's handles point at materialized nodes and locations.
pub open spec fn record_valid(rec: DebugScope, st: PassState) -> bool {
    &&& rec.dbg_scope < st.nodes.len()
    &&& (rec.inlined_at matches Some(l) ==> l < st.locations.len())
}

/// The invariant the pass maintains: table sizes match the scope count, the
/// root's seeded record and every instantiated record hold valid handles,
/// and every stored discriminator count is encodable.
pub open spec fn state_inv(st: PassState, sd: Seq<SourceScopeData>) -> bool {
    &&& st.scopes.len() == sd.len()
    &&& st.instantiated.len() == sd.len()
    &&& st.limit < u32::MAX
    &&& sd.len() > 0 ==> record_valid(st.scopes[0], st)
    &&& forall|j: int|
        0 <= j < sd.len() && st.instantiated[j] ==> record_valid(#[trigger] st.scopes[j], st)
    &&& forall|o: u32|
        st.discriminators.contains_key(o) ==> (#[trigger] st.discriminators[o]) <= st.limit
}

/// All non-root scopes before `k` are already instantiated: the state of
/// affairs when the driver reaches scope `k`.
pub open spec fn prefix_instantiated(st: PassState, k: int) -> bool {
    forall|j: int| 1 <= j < k ==> st.instantiated[j]
}

/// A successful step preserves the pass invariant, marks its own scope
/// instantiated (except for the root), and touches no other scope's mark.
pub proof fn lemma_step_preserves_inv(
    sd: Seq<SourceScopeData>,
    fn_span_lo: u32,
    usage: Option<Seq<bool>>,
    resolver: LocationResolver,
    st: PassState,
    s: int,
)
    requires
        crate::mir::scopes_wf(sd),
        usage matches Some(u) ==> u.len() == sd.len(),
        0 <= s < sd.len(),
        state_inv(st, sd),
        prefix_instantiated(st, s),
    ensures
        ({
            let out = scope_step(sd, fn_span_lo, usage, resolver, st, s);
            &&& out.ok ==> state_inv(out.state, sd)
            &&& forall|j: int|
                0 <= j < sd.len() && j != s ==> out.state.instantiated[j] == st.instantiated[j]
            &&& (out.ok && s > 0 ==> out.state.instantiated[s])
        }),
{
    let out = scope_step(sd, fn_span_lo, usage, resolver, st, s);
    if st.instantiated[s] {
    } else {
        match sd[s].parent {
            None => {
                let st1 = out.state;
                assert(st1.scopes[0].dbg_scope == st.scopes[0].dbg_scope);
                assert forall|j: int|
                    0 <= j < sd.len() && st1.instantiated[j] implies record_valid(
                    #[trigger] st1.scopes[j],
                    st1,
                ) by {
                    if j != 0 {
                        assert(st1.scopes[j] == st.scopes[j]);
                    }
                }
            },
            Some(p) => {
                assert(1 <= s);
                assert(p < s);
                let st0 = if p == 0 && !st.instantiated[0] {
                    root_step(st, resolver, fn_span_lo)
                } else {
                    st
                };
                assert(state_inv(st0, sd)) by {
                    assert forall|j: int|
                        0 <= j < sd.len() && st0.instantiated[j] implies record_valid(
                        #[trigger] st0.scopes[j],
                        st0,
                    ) by {
                        if j != 0 {
                            assert(st0.scopes[j] == st.scopes[j]);
                        }
                    }
                }
                let parent_rec = st0.scopes[p as int];
                assert(record_valid(parent_rec, st0)) by {
                    if p != 0 {
                        assert(st.instantiated[p as int]);
                    }
                }
                if collapse_applies(sd, usage, s) {
                    let st1 = out.state;
                    assert forall|j: int|
                        0 <= j < sd.len() && st1.instantiated[j] implies record_valid(
                        #[trigger] st1.scopes[j],
                        st1,
                    ) by {
                        if j != s {
                            assert(st1.scopes[j] == st0.scopes[j]);
                        }
                    }
                } else {
                    match sd[s].inlined {
                        Some(inl) => {
                            if find_function_scope(st0.nodes, inl.callee) is Some {
                                crate::builder::lemma_find_function_scope_found(
                                    st0.nodes,
                                    inl.callee,
                                );
                            }
                            let rec0 = LocationRecord {
                                scope: parent_rec.dbg_scope,
                                inlined_at: parent_rec.inlined_at,
                                span_lo: inl.callsite_lo,
                                discriminator: 0,
                            };
                            if find_location(st0.locations, rec0) is Some {
                                crate::builder::lemma_find_location_found(st0.locations, rec0);
                            }
                            let locs1 = if find_location(st0.locations, rec0) is Some {
                                st0.locations
                            } else {
                                st0.locations.push(rec0)
                            };
                            let d: u32 = if st0.discriminators.contains_key(inl.callsite_lo) {
                                ((st0.discriminators[inl.callsite_lo] + 1) as u32)
                            } else {
                                0u32
                            };
                            if out.ok {
                                if d != 0 {
                                    let recd = LocationRecord {
                                        scope: parent_rec.dbg_scope,
                                        inlined_at: parent_rec.inlined_at,
                                        span_lo: inl.callsite_lo,
                                        discriminator: d,
                                    };
                                    if find_location(locs1, recd) is Some {
                                        crate::builder::lemma_find_location_found(locs1, recd);
                                    }
                                }
                                let st1 = out.state;
                                assert forall|j: int|
                                    0 <= j < sd.len() && st1.instantiated[j] implies record_valid(
                                    #[trigger] st1.scopes[j],
                                    st1,
                                ) by {
                                    if j != s {
                                        assert(st1.scopes[j] == st0.scopes[j]);
                                        assert(record_valid(st0.scopes[j], st0));
                                    }
                                }
                                assert forall|o: u32|
                                    st1.discriminators.contains_key(o) implies (
                                #[trigger] st1.discriminators[o]) <= st1.limit by {
                                    if o != inl.callsite_lo {
                                        assert(st0.discriminators.contains_key(o));
                                    }
                                }
                            }
                        },
                        None => {
                            let st1 = out.state;
                            assert forall|j: int|
                                0 <= j < sd.len() && st1.instantiated[j] implies record_valid(
                                #[trigger] st1.scopes[j],
                                st1,
                            ) by {
                                if j != s {
                                    assert(st1.scopes[j] == st0.scopes[j]);
                                    assert(record_valid(st0.scopes[j], st0));
                                }
                            }
                        },
                    }
                }
            },
        }
    }
}

/// Once a run has failed, running further changes nothing.
pub proof fn lemma_run_latches(
    sd: Seq<SourceScopeData>,
    fn_span_lo: u32,
    usage: Option<Seq<bool>>,
    resolver: LocationResolver,
    init: PassState,
    k: int,
    m: int,
)
    requires
        0 <= k <= m,
        !run_pass(sd, fn_span_lo, usage, resolver, init, k).ok,
    ensures
        run_pass(sd, fn_span_lo, usage, resolver, init, m) == run_pass(
            sd,
            fn_span_lo,
            usage,
            resolver,
            init,
            k,
        ),
    decreases m - k,
{
    if m > k {
        lemma_run_latches(sd, fn_span_lo, usage, resolver, init, k, m - 1);
    }
}

} // verus!
