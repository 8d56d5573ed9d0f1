//! The laws of the pass, proved over the model in [`crate::model`]: the
//! idempotence of instantiation, parent-before-child ordering, collapse
//! correctness, discriminator monotonicity, and the root scope's
//! invariants.

use vstd::prelude::*;

use crate::builder::{
    find_function_scope, find_location, lemma_find_function_scope_found,
    lemma_find_location_found, LocationRecord, NodeRecord,
};
use crate::debug_scope::DebugScope;
use crate::mir::{scopes_wf, SourceScopeData};
use crate::model::{
    collapse_applies, prefix_instantiated, root_step, run_pass, scope_step, state_inv, PassState,
    StepOutcome, lemma_step_preserves_inv,
};
use crate::resolver::LocationResolver;

verus! {

/// Scope `j` is an inlining event at callsite offset `o`.
pub open spec fn is_inline_event(sd: Seq<SourceScopeData>, o: u32, j: int) -> bool {
    &&& 1 <= j < sd.len()
    &&& (sd[j].inlined matches Some(inl) && inl.callsite_lo == o)
}

/// How many inlining events at offset `o` occur among scopes `0 .. k`: the
/// position of scope `k` in the call order of events at `o`.
pub open spec fn inline_events(sd: Seq<SourceScopeData>, o: u32, k: int) -> int
    decreases k,
{
    if k <= 0 {
        0
    } else {
        inline_events(sd, o, k - 1) + if is_inline_event(sd, o, k - 1) {
            1int
        } else {
            0int
        }
    }
}

/// The record the root scope holds once instantiated: the seeded node and
/// inlined-at, and the resolved bounds of the function's own file.
pub open spec fn root_record(
    init: PassState,
    resolver: LocationResolver,
    fn_span_lo: u32,
) -> DebugScope {
    DebugScope {
        dbg_scope: init.scopes[0].dbg_scope,
        inlined_at: init.scopes[0].inlined_at,
        file_start_pos: resolver.resolve_spec(fn_span_lo).file_start_pos,
        file_end_pos: resolver.resolve_spec(fn_span_lo).file_end_pos,
    }
}

/// The shape of a state the driver starts from: well-formed inputs, the
/// invariant, nothing instantiated, and no discriminator recorded.
pub open spec fn pass_inputs_ok(
    sd: Seq<SourceScopeData>,
    usage: Option<Seq<bool>>,
    init: PassState,
) -> bool {
    &&& scopes_wf(sd)
    &&& (usage matches Some(u) ==> u.len() == sd.len())
    &&& state_inv(init, sd)
    &&& init.instantiated == Seq::new(sd.len(), |i: int| false)
    &&& init.discriminators == Map::<u32, u32>::empty()
    &&& init.nodes.len() + sd.len() <= usize::MAX
    &&& init.locations.len() + 2 * sd.len() <= usize::MAX
}

/// Everything that holds of the state after `k` successful steps.
pub open spec fn run_inv(
    sd: Seq<SourceScopeData>,
    fn_span_lo: u32,
    resolver: LocationResolver,
    init: PassState,
    k: int,
    st: PassState,
) -> bool {
    let n = sd.len() as int;
    &&& state_inv(st, sd)
    &&& st.limit == init.limit
    &&& st.nodes.len() <= init.nodes.len() + k
    &&& st.locations.len() <= init.locations.len() + 2 * k
    &&& forall|j: int| 0 <= j < n ==> ((#[trigger] st.instantiated[j]) <==> 1 <= j < k)
    &&& (k >= 1 && n > 0 ==> st.scopes[0] == root_record(init, resolver, fn_span_lo))
    &&& (k == 0 && n > 0 ==> st.scopes[0] == init.scopes[0])
    &&& forall|j: int| 1 <= j < n && k <= j ==> (#[trigger] st.scopes[j]) == init.scopes[j]
    &&& forall|o: u32|
        (#[trigger] st.discriminators.contains_key(o)) ==> inline_events(sd, o, k) > 0
            && st.discriminators[o] == inline_events(sd, o, k) - 1
    &&& forall|o: u32|
        inline_events(sd, o, k) > 0 ==> (#[trigger] st.discriminators.contains_key(o))
}

proof fn lemma_inline_events_nonneg(sd: Seq<SourceScopeData>, o: u32, k: int)
    ensures
        inline_events(sd, o, k) >= 0,
    decreases k,
{
    if k > 0 {
        lemma_inline_events_nonneg(sd, o, k - 1);
    }
}

/// Re-instantiating an already-resolved root changes nothing.
proof fn lemma_root_step_stable(st: PassState, resolver: LocationResolver, fn_span_lo: u32)
    requires
        st.scopes.len() > 0,
        st.scopes[0].file_start_pos == resolver.resolve_spec(fn_span_lo).file_start_pos,
        st.scopes[0].file_end_pos == resolver.resolve_spec(fn_span_lo).file_end_pos,
    ensures
        root_step(st, resolver, fn_span_lo) == st,
{
    let r = root_step(st, resolver, fn_span_lo);
    assert(r.scopes =~= st.scopes);
    assert(r =~= st);
}

/// One successful step keeps `run_inv`, only appends to the node and
/// location tables, rewrites no record but its own scope's, and — when its
/// scope is an inlining event — gives that scope the callee's function
/// node and a location whose discriminator is the event's position in the
/// call order at its offset.
proof fn lemma_step_effects(
    sd: Seq<SourceScopeData>,
    fn_span_lo: u32,
    usage: Option<Seq<bool>>,
    resolver: LocationResolver,
    init: PassState,
    k: int,
    st: PassState,
)
    requires
        scopes_wf(sd),
        usage matches Some(u) ==> u.len() == sd.len(),
        0 <= k < sd.len(),
        init.nodes.len() + sd.len() <= usize::MAX,
        init.locations.len() + 2 * sd.len() <= usize::MAX,
        run_inv(sd, fn_span_lo, resolver, init, k, st),
    ensures
        ({
            let n = sd.len() as int;
            let out = scope_step(sd, fn_span_lo, usage, resolver, st, k);
            &&& out.ok ==> run_inv(sd, fn_span_lo, resolver, init, k + 1, out.state)
            &&& out.ok ==> st.nodes.len() <= out.state.nodes.len()
            &&& out.ok ==> forall|j: int|
                0 <= j < st.nodes.len() ==> (#[trigger] out.state.nodes[j]) == st.nodes[j]
            &&& out.ok ==> st.locations.len() <= out.state.locations.len()
            &&& out.ok ==> forall|j: int|
                0 <= j < st.locations.len() ==> (#[trigger] out.state.locations[j])
                    == st.locations[j]
            &&& out.ok ==> forall|j: int|
                1 <= j < k ==> (#[trigger] out.state.scopes[j]) == st.scopes[j]
            &&& (out.ok && k >= 1 && n > 0 ==> out.state.scopes[0] == st.scopes[0])
            &&& (out.ok && k >= 1 && sd[k].inlined is Some ==> ({
                let inl = sd[k].inlined->0;
                let rec = out.state.scopes[k];
                &&& rec.inlined_at matches Some(l) && l < out.state.locations.len()
                    && out.state.locations[l as int].discriminator == inline_events(
                    sd,
                    inl.callsite_lo,
                    k,
                )
                &&& rec.dbg_scope < out.state.nodes.len()
                &&& out.state.nodes[rec.dbg_scope as int] == (NodeRecord::FunctionScope {
                    callee: inl.callee,
                })
            }))
        }),
{
    let n = sd.len() as int;
    let out = scope_step(sd, fn_span_lo, usage, resolver, st, k);
    assert(prefix_instantiated(st, k));
    lemma_step_preserves_inv(sd, fn_span_lo, usage, resolver, st, k);
    assert(!st.instantiated[k]);
    if k == 0 {
        assert(sd[0].parent is None);
        assert forall|o: u32| #[trigger]
            inline_events(sd, o, 1) == inline_events(sd, o, 0) by {
            assert(!is_inline_event(sd, o, 0));
        }
    } else {
        assert(sd[k].parent matches Some(p) && p < k);
        let p = sd[k].parent->0;
        let st0 = if p == 0 && !st.instantiated[0] {
            root_step(st, resolver, fn_span_lo)
        } else {
            st
        };
        if p == 0 && !st.instantiated[0] {
            lemma_root_step_stable(st, resolver, fn_span_lo);
        }
        assert(st0 == st);
        let parent_rec = st0.scopes[p as int];
        if collapse_applies(sd, usage, k) {
            assert forall|o: u32| #[trigger]
                inline_events(sd, o, k + 1) == inline_events(sd, o, k) by {
                assert(!is_inline_event(sd, o, k));
            }
        } else {
            match sd[k].inlined {
                Some(inl) => {
                    let o = inl.callsite_lo;
                    assert(st0.nodes.len() < usize::MAX);
                    assert(st0.locations.len() + 2 <= usize::MAX);
                    if find_function_scope(st0.nodes, inl.callee) is Some {
                        lemma_find_function_scope_found(st0.nodes, inl.callee);
                    }
                    let rec0 = LocationRecord {
                        scope: parent_rec.dbg_scope,
                        inlined_at: parent_rec.inlined_at,
                        span_lo: o,
                        discriminator: 0,
                    };
                    if find_location(st0.locations, rec0) is Some {
                        lemma_find_location_found(st0.locations, rec0);
                    }
                    let locs1 = if find_location(st0.locations, rec0) is Some {
                        st0.locations
                    } else {
                        st0.locations.push(rec0)
                    };
                    let d: u32 = if st0.discriminators.contains_key(o) {
                        ((st0.discriminators[o] + 1) as u32)
                    } else {
                        0u32
                    };
                    lemma_inline_events_nonneg(sd, o, k);
                    assert(d == inline_events(sd, o, k));
                    assert(is_inline_event(sd, o, k));
                    assert(inline_events(sd, o, k + 1) == inline_events(sd, o, k) + 1);
                    assert forall|o2: u32| o2 != o implies #[trigger] inline_events(
                        sd,
                        o2,
                        k + 1,
                    ) == inline_events(sd, o2, k) by {
                        assert(!is_inline_event(sd, o2, k));
                    }
                    if out.ok {
                        if d != 0 {
                            let recd = LocationRecord {
                                scope: parent_rec.dbg_scope,
                                inlined_at: parent_rec.inlined_at,
                                span_lo: o,
                                discriminator: d,
                            };
                            if find_location(locs1, recd) is Some {
                                lemma_find_location_found(locs1, recd);
                            }
                        }
                        assert forall|o2: u32| #[trigger] out.state.discriminators.contains_key(
                            o2,
                        ) implies inline_events(sd, o2, k + 1) > 0
                            && out.state.discriminators[o2] == inline_events(sd, o2, k + 1)
                            - 1 by {
                            if o2 != o {
                                assert(st.discriminators.contains_key(o2));
                            }
                        }
                        assert forall|o2: u32| inline_events(sd, o2, k + 1) > 0 implies (
                        #[trigger] out.state.discriminators.contains_key(o2)) by {
                            if o2 != o {
                                assert(inline_events(sd, o2, k) > 0);
                            }
                        }
                    }
                },
                None => {
                    assert forall|o: u32| #[trigger]
                        inline_events(sd, o, k + 1) == inline_events(sd, o, k) by {
                        assert(!is_inline_event(sd, o, k));
                    }
                },
            }
        }
    }
}

/// After `k` successful steps the state satisfies `run_inv`.
proof fn lemma_run_invariants(
    sd: Seq<SourceScopeData>,
    fn_span_lo: u32,
    usage: Option<Seq<bool>>,
    resolver: LocationResolver,
    init: PassState,
    k: int,
)
    requires
        pass_inputs_ok(sd, usage, init),
        0 <= k <= sd.len(),
        run_pass(sd, fn_span_lo, usage, resolver, init, k).ok,
    ensures
        run_inv(
            sd,
            fn_span_lo,
            resolver,
            init,
            k,
            run_pass(sd, fn_span_lo, usage, resolver, init, k).state,
        ),
    decreases k,
{
    if k == 0 {
        assert forall|o: u32| #[trigger]
            inline_events(sd, o, 0) == 0 by {}
    } else {
        lemma_run_invariants(sd, fn_span_lo, usage, resolver, init, k - 1);
        let prev = run_pass(sd, fn_span_lo, usage, resolver, init, k - 1);
        lemma_step_effects(sd, fn_span_lo, usage, resolver, init, k - 1, prev.state);
    }
}

/// Between two successful prefixes of one run, the node and location
/// tables only grow, and every record already instantiated keeps its value.
proof fn lemma_run_extends(
    sd: Seq<SourceScopeData>,
    fn_span_lo: u32,
    usage: Option<Seq<bool>>,
    resolver: LocationResolver,
    init: PassState,
    k1: int,
    k2: int,
)
    requires
        pass_inputs_ok(sd, usage, init),
        0 <= k1 <= k2 <= sd.len(),
        run_pass(sd, fn_span_lo, usage, resolver, init, k2).ok,
    ensures
        ({
            let st1 = run_pass(sd, fn_span_lo, usage, resolver, init, k1).state;
            let st2 = run_pass(sd, fn_span_lo, usage, resolver, init, k2).state;
            &&& st1.nodes.len() <= st2.nodes.len()
            &&& forall|j: int| 0 <= j < st1.nodes.len() ==> (#[trigger] st2.nodes[j]) == st1.nodes[j]
            &&& st1.locations.len() <= st2.locations.len()
            &&& forall|j: int|
                0 <= j < st1.locations.len() ==> (#[trigger] st2.locations[j]) == st1.locations[j]
            &&& forall|j: int| 1 <= j < k1 ==> (#[trigger] st2.scopes[j]) == st1.scopes[j]
            &&& (k1 >= 1 && sd.len() > 0 ==> st2.scopes[0] == st1.scopes[0])
        }),
    decreases k2 - k1,
{
    if k2 > k1 {
        let prev = run_pass(sd, fn_span_lo, usage, resolver, init, k2 - 1);
        lemma_run_extends(sd, fn_span_lo, usage, resolver, init, k1, k2 - 1);
        lemma_run_invariants(sd, fn_span_lo, usage, resolver, init, k2 - 1);
        lemma_step_effects(sd, fn_span_lo, usage, resolver, init, k2 - 1, prev.state);
    }
}

/// *Idempotence.*  Instantiating a scope a second time, once a first
/// instantiation has succeeded, is a no-op: the state — and with it the
/// scope's record and every materialized node — is exactly the same, so no
/// duplicate node construction occurs.
pub proof fn lemma_instantiate_idempotent(
    sd: Seq<SourceScopeData>,
    fn_span_lo: u32,
    usage: Option<Seq<bool>>,
    resolver: LocationResolver,
    st: PassState,
    s: int,
)
    requires
        scopes_wf(sd),
        0 <= s < sd.len(),
        st.scopes.len() == sd.len(),
        st.instantiated.len() == sd.len(),
    ensures
        ({
            let once = scope_step(sd, fn_span_lo, usage, resolver, st, s);
            once.ok ==> scope_step(sd, fn_span_lo, usage, resolver, once.state, s)
                == (StepOutcome { state: once.state, ok: true })
        }),
{
    let once = scope_step(sd, fn_span_lo, usage, resolver, st, s);
    if once.ok {
        let again = scope_step(sd, fn_span_lo, usage, resolver, once.state, s);
        if st.instantiated[s] {
            assert(again =~= (StepOutcome { state: once.state, ok: true }));
        } else {
            match sd[s].parent {
                None => {
                    if !once.state.instantiated[s] {
                        lemma_root_step_stable(once.state, resolver, fn_span_lo);
                    }
                    assert(again =~= (StepOutcome { state: once.state, ok: true }));
                },
                Some(_) => {
                    assert(once.state.instantiated[s]);
                    assert(again =~= (StepOutcome { state: once.state, ok: true }));
                },
            }
        }
    }
}

/// *Parent before child.*  When the pass reaches a scope with a parent,
/// the parent's record is already instantiated (or is the resolved root)
/// and already holds its final value.
pub proof fn lemma_parent_before_child(
    sd: Seq<SourceScopeData>,
    fn_span_lo: u32,
    usage: Option<Seq<bool>>,
    resolver: LocationResolver,
    init: PassState,
    s: int,
)
    requires
        pass_inputs_ok(sd, usage, init),
        1 <= s < sd.len(),
        run_pass(sd, fn_span_lo, usage, resolver, init, sd.len() as int).ok,
    ensures
        ({
            let n = sd.len() as int;
            let before = run_pass(sd, fn_span_lo, usage, resolver, init, s).state;
            let fin = run_pass(sd, fn_span_lo, usage, resolver, init, n).state;
            let p = sd[s].parent->0;
            &&& sd[s].parent is Some
            &&& p > 0 ==> before.instantiated[p as int]
            &&& before.scopes[p as int] == fin.scopes[p as int]
        }),
{
    let n = sd.len() as int;
    if !run_pass(sd, fn_span_lo, usage, resolver, init, s).ok {
        crate::model::lemma_run_latches(sd, fn_span_lo, usage, resolver, init, s, n);
    }
    lemma_run_invariants(sd, fn_span_lo, usage, resolver, init, s);
    lemma_run_extends(sd, fn_span_lo, usage, resolver, init, s, n);
    assert(sd[s].parent matches Some(p) && p < s);
}

/// *Collapse correctness.*  With full debug info on, a scope that binds no
/// variable and carries no inlining information ends the pass holding
/// exactly its parent's record — the same `dbg_scope` and `inlined_at`
/// handles, not merely equal-looking ones.
pub proof fn lemma_collapse_correct(
    sd: Seq<SourceScopeData>,
    fn_span_lo: u32,
    usage: Option<Seq<bool>>,
    resolver: LocationResolver,
    init: PassState,
    s: int,
)
    requires
        pass_inputs_ok(sd, usage, init),
        1 <= s < sd.len(),
        usage is Some,
        !usage->0[s],
        sd[s].inlined is None,
        run_pass(sd, fn_span_lo, usage, resolver, init, sd.len() as int).ok,
    ensures
        ({
            let n = sd.len() as int;
            let fin = run_pass(sd, fn_span_lo, usage, resolver, init, n).state;
            let p = sd[s].parent->0;
            fin.scopes[s] == fin.scopes[p as int]
        }),
{
    let n = sd.len() as int;
    if !run_pass(sd, fn_span_lo, usage, resolver, init, s + 1).ok {
        crate::model::lemma_run_latches(sd, fn_span_lo, usage, resolver, init, s + 1, n);
    }
    let before = run_pass(sd, fn_span_lo, usage, resolver, init, s).state;
    lemma_run_invariants(sd, fn_span_lo, usage, resolver, init, s);
    assert(sd[s].parent matches Some(p) && p < s);
    let p = sd[s].parent->0;
    if p == 0 && !before.instantiated[0] {
        lemma_root_step_stable(before, resolver, fn_span_lo);
    }
    assert(run_pass(sd, fn_span_lo, usage, resolver, init, s + 1).state.scopes[s]
        == before.scopes[p as int]);
    lemma_run_extends(sd, fn_span_lo, usage, resolver, init, s + 1, n);
    lemma_run_extends(sd, fn_span_lo, usage, resolver, init, s, n);
}

/// *Discriminator monotonicity.*  Each inlining event at a callsite offset
/// receives, as the discriminator of its `inlined_at` location, exactly
/// its position in the call order of events at that offset: the events
/// sharing one offset are numbered 0, 1, 2, … in order.  The event's own
/// node is the callee's function-level scope.
pub proof fn lemma_discriminator_monotone(
    sd: Seq<SourceScopeData>,
    fn_span_lo: u32,
    usage: Option<Seq<bool>>,
    resolver: LocationResolver,
    init: PassState,
    s: int,
)
    requires
        pass_inputs_ok(sd, usage, init),
        1 <= s < sd.len(),
        sd[s].inlined is Some,
        run_pass(sd, fn_span_lo, usage, resolver, init, sd.len() as int).ok,
    ensures
        ({
            let n = sd.len() as int;
            let fin = run_pass(sd, fn_span_lo, usage, resolver, init, n).state;
            let inl = sd[s].inlined->0;
            let rec = fin.scopes[s];
            &&& rec.inlined_at matches Some(l) && l < fin.locations.len()
                && fin.locations[l as int].discriminator == inline_events(sd, inl.callsite_lo, s)
            &&& rec.dbg_scope < fin.nodes.len()
            &&& fin.nodes[rec.dbg_scope as int] == (NodeRecord::FunctionScope {
                callee: inl.callee,
            })
        }),
{
    let n = sd.len() as int;
    if !run_pass(sd, fn_span_lo, usage, resolver, init, s + 1).ok {
        crate::model::lemma_run_latches(sd, fn_span_lo, usage, resolver, init, s + 1, n);
    }
    let before = run_pass(sd, fn_span_lo, usage, resolver, init, s).state;
    lemma_run_invariants(sd, fn_span_lo, usage, resolver, init, s);
    lemma_step_effects(sd, fn_span_lo, usage, resolver, init, s, before);
    lemma_run_extends(sd, fn_span_lo, usage, resolver, init, s + 1, n);
}

/// *Root invariants.*  From the moment the root is instantiated — and
/// whether or not the rest of the pass succeeds — its record keeps the
/// seeded node, has `inlined_at` absent whenever it was seeded absent, and
/// carries the resolved bounds of the function's own file.
pub proof fn lemma_root_invariants(
    sd: Seq<SourceScopeData>,
    fn_span_lo: u32,
    usage: Option<Seq<bool>>,
    resolver: LocationResolver,
    init: PassState,
    k: int,
)
    requires
        pass_inputs_ok(sd, usage, init),
        sd.len() > 0,
        init.scopes[0].inlined_at is None,
        1 <= k <= sd.len(),
    ensures
        ({
            let st = run_pass(sd, fn_span_lo, usage, resolver, init, k).state;
            &&& st.scopes[0].inlined_at is None
            &&& st.scopes[0].dbg_scope == init.scopes[0].dbg_scope
            &&& st.scopes[0].file_start_pos == resolver.resolve_spec(fn_span_lo).file_start_pos
            &&& st.scopes[0].file_end_pos == resolver.resolve_spec(fn_span_lo).file_end_pos
        }),
    decreases k,
{
    let res = resolver.resolve_spec(fn_span_lo);
    if k == 1 {
        assert(sd[0].parent is None);
        assert(!init.instantiated[0]);
    } else {
        lemma_root_invariants(sd, fn_span_lo, usage, resolver, init, k - 1);
        let prev = run_pass(sd, fn_span_lo, usage, resolver, init, k - 1);
        if prev.ok {
            lemma_run_invariants(sd, fn_span_lo, usage, resolver, init, k - 1);
            if run_pass(sd, fn_span_lo, usage, resolver, init, k).ok {
                lemma_step_effects(sd, fn_span_lo, usage, resolver, init, k - 1, prev.state);
            } else {
                // The step at k - 1 failed on a discriminator; it leaves
                // every record, the root's included, as it found it.
                assert(!prev.state.instantiated[k - 1]);
                assert(sd[k - 1].parent matches Some(p) && p < k - 1);
                let p = sd[k - 1].parent->0;
                if p == 0 && !prev.state.instantiated[0] {
                    lemma_root_step_stable(prev.state, resolver, fn_span_lo);
                }
            }
        }
    }
}

} // verus!
