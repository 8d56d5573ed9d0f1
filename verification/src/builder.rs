//! The debug-info node builder: the external emitter's node and location
//! constructors, modeled as an allocator of opaque integer handles.  The
//! pass never inspects a handle; it only threads handles through the scope
//! tree.  Function-level scopes are obtained once per callee, and locations
//! are uniqued on their contents, as the underlying emitter uniques its
//! metadata — which is exactly why two inlining events at one source
//! position need a discriminator to stay distinguishable.

use vstd::prelude::*;

verus! {

/// What one materialized debug node stands for.
#[derive(Clone, Copy, Debug, PartialEq, Eq)]
pub enum NodeRecord {
    /// The function-level scope of an inlined callee.
    FunctionScope {
        /// Opaque identity of the callee.
        callee: u64,
    },
    /// A fresh lexical block, nested in `parent` and anchored at a position.
    LexicalBlock {
        /// Handle of the enclosing debug node.
        parent: usize,
        /// File the block is anchored in.
        file: u32,
        /// Line of the block's anchor.
        line: u32,
        /// Column of the block's anchor.
        col: u32,
    },
}

/// One debug location: a position within a scope, chained to the location
/// its code was inlined at, and carrying a disambiguating discriminator.
#[derive(Clone, Copy, Debug, PartialEq, Eq)]
pub struct LocationRecord {
    /// Handle of the debug node the location lies in.
    pub scope: usize,
    /// Handle of the next-outer inlined-at location, if any.
    pub inlined_at: Option<usize>,
    /// Byte offset of the position's span start.
    pub span_lo: u32,
    /// Discriminator distinguishing events at one source position.
    pub discriminator: u32,
}

/// Index of the scope node already materialized for `callee`, if any.
pub open spec fn find_function_scope(nodes: Seq<NodeRecord>, callee: u64) -> Option<int>
    decreases nodes.len(),
{
    if nodes.len() == 0 {
        None
    } else if nodes[0] == (NodeRecord::FunctionScope { callee }) {
        Some(0)
    } else {
        match find_function_scope(nodes.drop_first(), callee) {
            Some(i) => Some(i + 1),
            None => None,
        }
    }
}

/// Index of the location already materialized with exactly `rec`'s
/// contents, if any.
pub open spec fn find_location(locations: Seq<LocationRecord>, rec: LocationRecord) -> Option<int>
    decreases locations.len(),
{
    if locations.len() == 0 {
        None
    } else if locations[0] == rec {
        Some(0)
    } else {
        match find_location(locations.drop_first(), rec) {
            Some(i) => Some(i + 1),
            None => None,
        }
    }
}

proof fn lemma_find_function_scope_at(nodes: Seq<NodeRecord>, callee: u64, i: int)
    requires
        0 <= i < nodes.len(),
        nodes[i] == (NodeRecord::FunctionScope { callee }),
        forall|j: int| 0 <= j < i ==> nodes[j] != (NodeRecord::FunctionScope { callee }),
    ensures
        find_function_scope(nodes, callee) == Some(i),
    decreases i,
{
    if i > 0 {
        assert(forall|j: int|
            0 <= j < nodes.drop_first().len() ==> nodes.drop_first()[j] == nodes[j + 1]);
        lemma_find_function_scope_at(nodes.drop_first(), callee, i - 1);
    }
}

proof fn lemma_find_function_scope_absent(nodes: Seq<NodeRecord>, callee: u64)
    requires
        forall|j: int| 0 <= j < nodes.len() ==> nodes[j] != (NodeRecord::FunctionScope { callee }),
    ensures
        find_function_scope(nodes, callee) is None,
    decreases nodes.len(),
{
    if nodes.len() > 0 {
        assert(forall|j: int|
            0 <= j < nodes.drop_first().len() ==> nodes.drop_first()[j] == nodes[j + 1]);
        lemma_find_function_scope_absent(nodes.drop_first(), callee);
    }
}

proof fn lemma_find_location_at(locations: Seq<LocationRecord>, rec: LocationRecord, i: int)
    requires
        0 <= i < locations.len(),
        locations[i] == rec,
        forall|j: int| 0 <= j < i ==> locations[j] != rec,
    ensures
        find_location(locations, rec) == Some(i),
    decreases i,
{
    if i > 0 {
        assert(forall|j: int|
            0 <= j < locations.drop_first().len() ==> locations.drop_first()[j] == locations[j
                + 1]);
        lemma_find_location_at(locations.drop_first(), rec, i - 1);
    }
}

proof fn lemma_find_location_absent(locations: Seq<LocationRecord>, rec: LocationRecord)
    requires
        forall|j: int| 0 <= j < locations.len() ==> locations[j] != rec,
    ensures
        find_location(locations, rec) is None,
    decreases locations.len(),
{
    if locations.len() > 0 {
        assert(forall|j: int|
            0 <= j < locations.drop_first().len() ==> locations.drop_first()[j] == locations[j
                + 1]);
        lemma_find_location_absent(locations.drop_first(), rec);
    }
}

/// A found index names an element with the sought contents.
pub proof fn lemma_find_location_found(locations: Seq<LocationRecord>, rec: LocationRecord)
    requires
        find_location(locations, rec) is Some,
    ensures
        0 <= find_location(locations, rec)->0 < locations.len(),
        locations[find_location(locations, rec)->0] == rec,
    decreases locations.len(),
{
    if locations.len() > 0 && locations[0] != rec {
        lemma_find_location_found(locations.drop_first(), rec);
    }
}

/// A found index names the function scope of the sought callee.
pub proof fn lemma_find_function_scope_found(nodes: Seq<NodeRecord>, callee: u64)
    requires
        find_function_scope(nodes, callee) is Some,
    ensures
        0 <= find_function_scope(nodes, callee)->0 < nodes.len(),
        nodes[find_function_scope(nodes, callee)->0] == (NodeRecord::FunctionScope { callee }),
    decreases nodes.len(),
{
    if nodes.len() > 0 && nodes[0] != (NodeRecord::FunctionScope { callee }) {
        lemma_find_function_scope_found(nodes.drop_first(), callee);
    }
}

/// What the builder has materialized so far.
#[verifier::ext_equal]
pub ghost struct BuilderView {
    /// Every node dealt out, in creation order; a node handle is an index.
    pub nodes: Seq<NodeRecord>,
    /// Every location dealt out; a location handle is an index.
    pub locations: Seq<LocationRecord>,
    /// Largest discriminator the emitter can encode in a location.
    pub limit: u32,
}

/// The allocator of debug nodes and locations for one compilation unit.
pub struct DebugInfoBuilder {
    nodes: Vec<NodeRecord>,
    locations: Vec<LocationRecord>,
    limit: u32,
}

impl View for DebugInfoBuilder {
    type V = BuilderView;

    closed spec fn view(&self) -> BuilderView {
        BuilderView { nodes: self.nodes@, locations: self.locations@, limit: self.limit }
    }
}

impl DebugInfoBuilder {
    /// A builder that has materialized nothing and can encode
    /// discriminators up to `discriminator_limit`.
    pub fn new(discriminator_limit: u32) -> (r: Self)
        requires
            discriminator_limit < u32::MAX,
        ensures
            r@ == (BuilderView {
                nodes: Seq::<NodeRecord>::empty(),
                locations: Seq::<LocationRecord>::empty(),
                limit: discriminator_limit,
            }),
    {
        let r = DebugInfoBuilder { nodes: Vec::new(), locations: Vec::new(), limit: discriminator_limit };
        proof {
            assert(r@ =~= (BuilderView {
                nodes: Seq::<NodeRecord>::empty(),
                locations: Seq::<LocationRecord>::empty(),
                limit: discriminator_limit,
            }));
        }
        r
    }

    /// The function-level debug scope of `callee`: the node already
    /// materialized for it, or a fresh one on the first request.
    pub fn function_scope(&mut self, callee: u64) -> (r: usize)
        ensures
            match find_function_scope(old(self)@.nodes, callee) {
                Some(i) => final(self)@ == old(self)@ && r == i,
                None => {
                    &&& r == old(self)@.nodes.len()
                    &&& final(self)@ == (BuilderView {
                        nodes: old(self)@.nodes.push(NodeRecord::FunctionScope { callee }),
                        locations: old(self)@.locations,
                        limit: old(self)@.limit,
                    })
                },
            },
    {
        let n: usize = self.nodes.len();
        let mut i: usize = 0;
        while i < n
            invariant
                i <= n,
                n == self.nodes@.len(),
                forall|j: int| 0 <= j < i ==> self.nodes@[j] != (NodeRecord::FunctionScope { callee }),
            decreases n - i,
        {
            let hit = match self.nodes[i] {
                NodeRecord::FunctionScope { callee: c } => c == callee,
                _ => false,
            };
            if hit {
                proof {
                    lemma_find_function_scope_at(self.nodes@, callee, i as int);
                }
                return i;
            }
            i = i + 1;
        }
        proof {
            lemma_find_function_scope_absent(self.nodes@, callee);
        }
        self.nodes.push(NodeRecord::FunctionScope { callee });
        proof {
            assert(final(self)@ =~= (BuilderView {
                nodes: old(self)@.nodes.push(NodeRecord::FunctionScope { callee }),
                locations: old(self)@.locations,
                limit: old(self)@.limit,
            }));
        }
        n
    }

    /// A fresh lexical-block node nested in `parent`, anchored at the given
    /// file, line and column.
    pub fn create_lexical_block(&mut self, parent: usize, file: u32, line: u32, col: u32) -> (r:
        usize)
        requires
            parent < old(self)@.nodes.len(),
        ensures
            r == old(self)@.nodes.len(),
            final(self)@ == (BuilderView {
                nodes: old(self)@.nodes.push(NodeRecord::LexicalBlock { parent, file, line, col }),
                locations: old(self)@.locations,
                limit: old(self)@.limit,
            }),
    {
        let n: usize = self.nodes.len();
        self.nodes.push(NodeRecord::LexicalBlock { parent, file, line, col });
        proof {
            assert(final(self)@ =~= (BuilderView {
                nodes: old(self)@.nodes.push(NodeRecord::LexicalBlock { parent, file, line, col }),
                locations: old(self)@.locations,
                limit: old(self)@.limit,
            }));
        }
        n
    }

    fn find_location_exec(&self, rec: LocationRecord) -> (r: Option<usize>)
        ensures
            match find_location(self@.locations, rec) {
                Some(i) => r matches Some(u) && u == i,
                None => r is None,
            },
    {
        let n: usize = self.locations.len();
        let mut i: usize = 0;
        while i < n
            invariant
                i <= n,
                n == self.locations@.len(),
                forall|j: int| 0 <= j < i ==> self.locations@[j] != rec,
            decreases n - i,
        {
            let c = self.locations[i];
            let inlined_eq = match (c.inlined_at, rec.inlined_at) {
                (Some(a), Some(b)) => a == b,
                (None, None) => true,
                _ => false,
            };
            if c.scope == rec.scope && inlined_eq && c.span_lo == rec.span_lo && c.discriminator
                == rec.discriminator {
                proof {
                    lemma_find_location_at(self.locations@, rec, i as int);
                }
                return Some(i);
            }
            i = i + 1;
        }
        proof {
            lemma_find_location_absent(self.locations@, rec);
        }
        None
    }

    /// The debug location for span start `span_lo` within the node
    /// `scope`, chained to `inlined_at`.  Locations are uniqued on their
    /// contents: an identical request returns the identical handle.
    pub fn create_location(&mut self, scope: usize, inlined_at: Option<usize>, span_lo: u32) -> (r:
        usize)
        requires
            scope < old(self)@.nodes.len(),
            inlined_at matches Some(l) ==> l < old(self)@.locations.len(),
        ensures
            ({
                let rec = LocationRecord { scope, inlined_at, span_lo, discriminator: 0 };
                match find_location(old(self)@.locations, rec) {
                    Some(i) => final(self)@ == old(self)@ && r == i,
                    None => {
                        &&& r == old(self)@.locations.len()
                        &&& final(self)@ == (BuilderView {
                            nodes: old(self)@.nodes,
                            locations: old(self)@.locations.push(rec),
                            limit: old(self)@.limit,
                        })
                    },
                }
            }),
    {
        let rec = LocationRecord { scope, inlined_at, span_lo, discriminator: 0 };
        match self.find_location_exec(rec) {
            Some(i) => i,
            None => {
                let n: usize = self.locations.len();
                self.locations.push(rec);
                proof {
                    assert(final(self)@ =~= (BuilderView {
                        nodes: old(self)@.nodes,
                        locations: old(self)@.locations.push(rec),
                        limit: old(self)@.limit,
                    }));
                }
                n
            },
        }
    }

    /// A clone of the location `base` carrying `discriminator`, uniqued on
    /// its contents; fails — fatally for the enclosing pass — when the
    /// discriminator cannot be encoded.
    pub fn clone_with_discriminator(&mut self, base: usize, discriminator: u32) -> (r: Option<
        usize>)
        requires
            base < old(self)@.locations.len(),
        ensures
            discriminator > old(self)@.limit ==> r is None && final(self)@ == old(self)@,
            discriminator <= old(self)@.limit ==> ({
                let rec = LocationRecord {
                    scope: old(self)@.locations[base as int].scope,
                    inlined_at: old(self)@.locations[base as int].inlined_at,
                    span_lo: old(self)@.locations[base as int].span_lo,
                    discriminator,
                };
                match find_location(old(self)@.locations, rec) {
                    Some(i) => final(self)@ == old(self)@ && (r matches Some(u) && u == i),
                    None => {
                        &&& (r matches Some(u) && u == old(self)@.locations.len())
                        &&& final(self)@ == (BuilderView {
                            nodes: old(self)@.nodes,
                            locations: old(self)@.locations.push(rec),
                            limit: old(self)@.limit,
                        })
                    },
                }
            }),
    {
        if discriminator > self.limit {
            return None;
        }
        let b = self.locations[base];
        let rec = LocationRecord {
            scope: b.scope,
            inlined_at: b.inlined_at,
            span_lo: b.span_lo,
            discriminator,
        };
        match self.find_location_exec(rec) {
            Some(i) => Some(i),
            None => {
                let n: usize = self.locations.len();
                self.locations.push(rec);
                proof {
                    assert(final(self)@ =~= (BuilderView {
                        nodes: old(self)@.nodes,
                        locations: old(self)@.locations.push(rec),
                        limit: old(self)@.limit,
                    }));
                }
                Some(n)
            },
        }
    }

    /// Number of nodes materialized so far.
    pub fn nodes_len(&self) -> (r: usize)
        ensures
            r == self@.nodes.len(),
    {
        self.nodes.len()
    }

    /// Number of locations materialized so far.
    pub fn locations_len(&self) -> (r: usize)
        ensures
            r == self@.locations.len(),
    {
        self.locations.len()
    }

    /// The record of node `i`.
    pub fn node(&self, i: usize) -> (r: NodeRecord)
        requires
            i < self@.nodes.len(),
        ensures
            r == self@.nodes[i as int],
    {
        self.nodes[i]
    }

    /// The record of location `i`.
    pub fn location(&self, i: usize) -> (r: LocationRecord)
        requires
            i < self@.locations.len(),
        ensures
            r == self@.locations[i as int],
    {
        self.locations[i]
    }

    /// Largest discriminator the emitter can encode.
    pub fn discriminator_limit(&self) -> (r: u32)
        ensures
            r == self@.limit,
    {
        self.limit
    }
}

} // verus!
