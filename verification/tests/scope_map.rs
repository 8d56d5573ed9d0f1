use scope_map::builder::{DebugInfoBuilder, NodeRecord};
use scope_map::debug_scope::FunctionDebugContext;
use scope_map::discriminator::DiscriminatorTable;
use scope_map::mir::{Body, DebugInfoLevel, InlinedInfo, SourceScopeData, VarDebugInfo};
use scope_map::resolver::{LocationResolver, ResolvedLocation};
use scope_map::scope_map::{compute_mir_scopes, variable_usage_set, ScopeMapError};

fn loc(file: u32, line: u32, col: u32, start: u32, end: u32) -> ResolvedLocation {
    ResolvedLocation { file, line, col, file_start_pos: start, file_end_pos: end }
}

fn resolver() -> LocationResolver {
    LocationResolver {
        entries: vec![
            (10, loc(1, 1, 0, 0, 100)),
            (20, loc(1, 5, 3, 0, 100)),
            (30, loc(1, 7, 2, 0, 100)),
            (50, loc(1, 9, 4, 0, 100)),
            (60, loc(1, 11, 6, 0, 100)),
        ],
        fallback: loc(0, 0, 0, 0, 0),
    }
}

fn root_scope() -> SourceScopeData {
    SourceScopeData { parent: None, span_lo: 10, inlined: None }
}

#[test]
fn resolver_lookup_and_fallback() {
    let r = resolver();
    assert_eq!(r.resolve(20), loc(1, 5, 3, 0, 100));
    assert_eq!(r.resolve(999), loc(0, 0, 0, 0, 0));
}

#[test]
fn discriminator_sequence_is_monotone() {
    let mut t = DiscriminatorTable::new();
    assert_eq!(t.next(5), 0);
    assert_eq!(t.next(5), 1);
    assert_eq!(t.next(5), 2);
    assert_eq!(t.next(9), 0);
    assert_eq!(t.count(5), Some(2));
    assert_eq!(t.count(9), Some(0));
    assert_eq!(t.count(7), None);
}

#[test]
fn builder_uniques_locations_and_function_scopes() {
    let mut b = DebugInfoBuilder::new(7);
    let f1 = b.function_scope(42);
    let f2 = b.function_scope(42);
    assert_eq!(f1, f2);
    let f3 = b.function_scope(43);
    assert_ne!(f1, f3);
    let l1 = b.create_location(f1, None, 5);
    let l2 = b.create_location(f1, None, 5);
    assert_eq!(l1, l2);
    let c1 = b.clone_with_discriminator(l1, 3).unwrap();
    let c2 = b.clone_with_discriminator(l1, 3).unwrap();
    assert_eq!(c1, c2);
    assert_ne!(c1, l1);
    assert_eq!(b.clone_with_discriminator(l1, 8), None);
}

#[test]
fn usage_set_marks_exactly_named_scopes() {
    let vars = vec![VarDebugInfo { scope: 0 }, VarDebugInfo { scope: 2 }, VarDebugInfo { scope: 2 }];
    let set = variable_usage_set(DebugInfoLevel::Full, &vars, 4).unwrap();
    assert_eq!(set, vec![true, false, true, false]);
    assert!(variable_usage_set(DebugInfoLevel::Limited, &vars, 4).is_none());
}

#[test]
fn empty_body_is_a_no_op() {
    let body = Body { span_lo: 10, source_scopes: vec![], var_debug_info: vec![] };
    let r = resolver();
    let mut b = DebugInfoBuilder::new(7);
    let mut ctx = FunctionDebugContext::new(0, 0);
    assert!(compute_mir_scopes(&body, DebugInfoLevel::Full, &r, &mut b, &mut ctx).is_ok());
    assert_eq!(ctx.len(), 0);
}

#[test]
fn single_root_scope_creates_no_lexical_block() {
    // One root scope, full debug info, zero variables: one record, no
    // lexical block materialized.
    let body = Body { span_lo: 10, source_scopes: vec![root_scope()], var_debug_info: vec![] };
    let r = resolver();
    let mut b = DebugInfoBuilder::new(7);
    let fn_node = b.function_scope(99);
    let mut ctx = FunctionDebugContext::new(fn_node, 1);
    assert!(compute_mir_scopes(&body, DebugInfoLevel::Full, &r, &mut b, &mut ctx).is_ok());
    let root = ctx.scope_record(0);
    assert_eq!(root.dbg_scope, fn_node);
    assert_eq!(root.inlined_at, None);
    assert_eq!(root.file_start_pos, 0);
    assert_eq!(root.file_end_pos, 100);
    assert_eq!(b.nodes_len(), 1);
}

#[test]
fn child_with_variable_gets_own_block_at_its_span() {
    // Root plus one child that binds a variable: the child's node is a
    // fresh lexical block, distinct from the root's, anchored at the
    // child's span start.
    let child = SourceScopeData { parent: Some(0), span_lo: 20, inlined: None };
    let body = Body {
        span_lo: 10,
        source_scopes: vec![root_scope(), child],
        var_debug_info: vec![VarDebugInfo { scope: 1 }],
    };
    let r = resolver();
    let mut b = DebugInfoBuilder::new(7);
    let fn_node = b.function_scope(99);
    let mut ctx = FunctionDebugContext::new(fn_node, 2);
    assert!(compute_mir_scopes(&body, DebugInfoLevel::Full, &r, &mut b, &mut ctx).is_ok());
    assert_eq!(ctx.len(), 2);
    let root = ctx.scope_record(0);
    let rec = ctx.scope_record(1);
    assert_ne!(rec.dbg_scope, root.dbg_scope);
    assert_eq!(
        b.node(rec.dbg_scope),
        NodeRecord::LexicalBlock { parent: fn_node, file: 1, line: 5, col: 3 }
    );
    assert_eq!(rec.inlined_at, None);
    assert_eq!(rec.file_start_pos, 0);
    assert_eq!(rec.file_end_pos, 100);
    assert_eq!(b.nodes_len(), 2);
}

#[test]
fn child_without_variables_collapses_into_root() {
    // Root plus one child with no variables and no inlining: both table
    // entries exist, but the child's record is exactly the root's.
    let child = SourceScopeData { parent: Some(0), span_lo: 20, inlined: None };
    let body = Body {
        span_lo: 10,
        source_scopes: vec![root_scope(), child],
        var_debug_info: vec![],
    };
    let r = resolver();
    let mut b = DebugInfoBuilder::new(7);
    let fn_node = b.function_scope(99);
    let mut ctx = FunctionDebugContext::new(fn_node, 2);
    assert!(compute_mir_scopes(&body, DebugInfoLevel::Full, &r, &mut b, &mut ctx).is_ok());
    assert_eq!(ctx.len(), 2);
    assert_eq!(ctx.scope_record(1), ctx.scope_record(0));
    assert_eq!(b.nodes_len(), 1);
}

#[test]
fn reduced_debug_info_skips_collapsing() {
    // With reduced debug info there is no usage set, so even a variable-free
    // child still gets its own lexical block.
    let child = SourceScopeData { parent: Some(0), span_lo: 20, inlined: None };
    let body = Body {
        span_lo: 10,
        source_scopes: vec![root_scope(), child],
        var_debug_info: vec![],
    };
    let r = resolver();
    let mut b = DebugInfoBuilder::new(7);
    let fn_node = b.function_scope(99);
    let mut ctx = FunctionDebugContext::new(fn_node, 2);
    assert!(compute_mir_scopes(&body, DebugInfoLevel::Limited, &r, &mut b, &mut ctx).is_ok());
    assert_ne!(ctx.scope_record(1).dbg_scope, ctx.scope_record(0).dbg_scope);
    assert_eq!(b.nodes_len(), 2);
}

#[test]
fn siblings_inlined_at_one_offset_get_discriminators_in_order() {
    // Two siblings inlined from the same callee at the same callsite byte
    // offset: both resolve to the callee's function-level node, but their
    // inlined-at locations differ, carrying discriminators 0 and 1.
    let inl = InlinedInfo { callee: 7, callsite_lo: 50 };
    let c1 = SourceScopeData { parent: Some(0), span_lo: 20, inlined: Some(inl) };
    let c2 = SourceScopeData { parent: Some(0), span_lo: 30, inlined: Some(inl) };
    let body = Body {
        span_lo: 10,
        source_scopes: vec![root_scope(), c1, c2],
        var_debug_info: vec![],
    };
    let r = resolver();
    let mut b = DebugInfoBuilder::new(7);
    let fn_node = b.function_scope(99);
    let mut ctx = FunctionDebugContext::new(fn_node, 3);
    assert!(compute_mir_scopes(&body, DebugInfoLevel::Full, &r, &mut b, &mut ctx).is_ok());
    let r1 = ctx.scope_record(1);
    let r2 = ctx.scope_record(2);
    assert_eq!(r1.dbg_scope, r2.dbg_scope);
    assert_eq!(b.node(r1.dbg_scope), NodeRecord::FunctionScope { callee: 7 });
    let l1 = r1.inlined_at.unwrap();
    let l2 = r2.inlined_at.unwrap();
    assert_ne!(l1, l2);
    let loc1 = b.location(l1);
    let loc2 = b.location(l2);
    assert_eq!(loc1.discriminator, 0);
    assert_eq!(loc2.discriminator, 1);
    assert_eq!(loc1.span_lo, 50);
    assert_eq!(loc2.span_lo, 50);
    assert_eq!(loc1.scope, fn_node);
    assert_eq!(loc2.scope, fn_node);
}

#[test]
fn nested_inlining_chains_locations() {
    // A scope inlined inside an inlined scope: its callsite location
    // chains to the outer call's location.
    let outer = SourceScopeData {
        parent: Some(0),
        span_lo: 20,
        inlined: Some(InlinedInfo { callee: 7, callsite_lo: 50 }),
    };
    let inner = SourceScopeData {
        parent: Some(1),
        span_lo: 30,
        inlined: Some(InlinedInfo { callee: 8, callsite_lo: 60 }),
    };
    let body = Body {
        span_lo: 10,
        source_scopes: vec![root_scope(), outer, inner],
        var_debug_info: vec![],
    };
    let r = resolver();
    let mut b = DebugInfoBuilder::new(7);
    let fn_node = b.function_scope(99);
    let mut ctx = FunctionDebugContext::new(fn_node, 3);
    assert!(compute_mir_scopes(&body, DebugInfoLevel::Full, &r, &mut b, &mut ctx).is_ok());
    let r1 = ctx.scope_record(1);
    let r2 = ctx.scope_record(2);
    let l1 = r1.inlined_at.unwrap();
    let l2 = r2.inlined_at.unwrap();
    let loc2 = b.location(l2);
    assert_eq!(loc2.inlined_at, Some(l1));
    assert_eq!(loc2.scope, r1.dbg_scope);
    assert_eq!(loc2.span_lo, 60);
}

#[test]
fn unencodable_discriminator_is_fatal() {
    // With a discriminator limit of zero, the second inlining event at one
    // offset cannot be disambiguated: the pass aborts.
    let inl = InlinedInfo { callee: 7, callsite_lo: 50 };
    let c1 = SourceScopeData { parent: Some(0), span_lo: 20, inlined: Some(inl) };
    let c2 = SourceScopeData { parent: Some(0), span_lo: 30, inlined: Some(inl) };
    let body = Body {
        span_lo: 10,
        source_scopes: vec![root_scope(), c1, c2],
        var_debug_info: vec![],
    };
    let r = resolver();
    let mut b = DebugInfoBuilder::new(0);
    let fn_node = b.function_scope(99);
    let mut ctx = FunctionDebugContext::new(fn_node, 3);
    let res = compute_mir_scopes(&body, DebugInfoLevel::Full, &r, &mut b, &mut ctx);
    assert_eq!(res, Err(ScopeMapError::DiscriminatorEncoding));
}

#[test]
fn distinct_offsets_each_start_at_discriminator_zero() {
    // Inlining events at different callsite offsets do not disturb each
    // other's counters: each offset starts again at zero.
    let c1 = SourceScopeData {
        parent: Some(0),
        span_lo: 20,
        inlined: Some(InlinedInfo { callee: 7, callsite_lo: 50 }),
    };
    let c2 = SourceScopeData {
        parent: Some(0),
        span_lo: 30,
        inlined: Some(InlinedInfo { callee: 7, callsite_lo: 60 }),
    };
    let body = Body {
        span_lo: 10,
        source_scopes: vec![root_scope(), c1, c2],
        var_debug_info: vec![],
    };
    let r = resolver();
    let mut b = DebugInfoBuilder::new(0);
    let fn_node = b.function_scope(99);
    let mut ctx = FunctionDebugContext::new(fn_node, 3);
    // A limit of zero suffices: neither event ever needs a clone.
    assert!(compute_mir_scopes(&body, DebugInfoLevel::Full, &r, &mut b, &mut ctx).is_ok());
    let l1 = ctx.scope_record(1).inlined_at.unwrap();
    let l2 = ctx.scope_record(2).inlined_at.unwrap();
    assert_eq!(b.location(l1).discriminator, 0);
    assert_eq!(b.location(l2).discriminator, 0);
    assert_ne!(l1, l2);
}

#[test]
fn unlisted_offset_resolves_to_fallback_bounds() {
    let body = Body {
        span_lo: 77,
        source_scopes: vec![SourceScopeData { parent: None, span_lo: 77, inlined: None }],
        var_debug_info: vec![],
    };
    let r = resolver();
    let mut b = DebugInfoBuilder::new(7);
    let fn_node = b.function_scope(99);
    let mut ctx = FunctionDebugContext::new(fn_node, 1);
    assert!(compute_mir_scopes(&body, DebugInfoLevel::Full, &r, &mut b, &mut ctx).is_ok());
    let root = ctx.scope_record(0);
    assert_eq!(root.file_start_pos, 0);
    assert_eq!(root.file_end_pos, 0);
}

#[test]
fn deep_nesting_collapses_to_nearest_ancestor_with_content() {
    // A chain root -> a -> b where only `a` binds a variable: `b` collapses
    // into `a`'s record, not the root's.
    let a = SourceScopeData { parent: Some(0), span_lo: 20, inlined: None };
    let b_scope = SourceScopeData { parent: Some(1), span_lo: 30, inlined: None };
    let body = Body {
        span_lo: 10,
        source_scopes: vec![root_scope(), a, b_scope],
        var_debug_info: vec![VarDebugInfo { scope: 1 }],
    };
    let r = resolver();
    let mut b = DebugInfoBuilder::new(7);
    let fn_node = b.function_scope(99);
    let mut ctx = FunctionDebugContext::new(fn_node, 3);
    assert!(compute_mir_scopes(&body, DebugInfoLevel::Full, &r, &mut b, &mut ctx).is_ok());
    assert_eq!(ctx.scope_record(2), ctx.scope_record(1));
    assert_ne!(ctx.scope_record(2).dbg_scope, ctx.scope_record(0).dbg_scope);
}
