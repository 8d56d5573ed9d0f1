//! Construction of per-function debug-scope tables.
//!
//! A compiler backend that lowers a function body into native code must also
//! lower the body's tree of lexical source scopes into the scope tree that a
//! debug-information emitter understands.  This crate implements that
//! transformation: walking the scope forest in parent-before-child order, it
//! produces one `DebugScope` record per source scope, either materializing a
//! fresh debug node or collapsing the scope into its nearest ancestor that
//! carries real content, and it threads "inlined-at" location chains through
//! nested inlining, disambiguating call sites that share a source position
//! with a monotonically increasing discriminator.
//!
//! The debug-info emitter itself, and the resolution of byte offsets to file
//! and line positions, are external collaborators.  They are modeled here as
//! opaque integer handles dealt out by [`builder::DebugInfoBuilder`] and as a
//! lookup table, [`resolver::LocationResolver`]; the pass only threads the
//! handles through the tree and never inspects them.

pub mod builder;
pub mod debug_scope;
pub mod discriminator;
pub mod laws;
pub mod mir;
pub mod model;
pub mod resolver;
pub mod rnn_data_layout;
pub mod scope_map;
