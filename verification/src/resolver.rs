//! The location resolver: the black-box lookup, owned by the surrounding
//! compilation session, that maps a byte offset within the compilation unit
//! to a concrete file, line and column, together with the textual bounds of
//! that file.  The pass only consumes it, so it is modeled as a finite
//! lookup table with a fallback entry.

use vstd::prelude::*;

verus! {

/// What the resolver reports for one byte offset.
#[derive(Clone, Copy, Debug, PartialEq, Eq)]
pub struct ResolvedLocation {
    /// Opaque identity of the file containing the offset.
    pub file: u32,
    /// Line of the offset within that file.
    pub line: u32,
    /// Column of the offset within that line.
    pub col: u32,
    /// Byte offset at which the file starts.
    pub file_start_pos: u32,
    /// Byte offset at which the file ends.
    pub file_end_pos: u32,
}

/// First entry whose offset matches, or the fallback when none does.
pub open spec fn lookup_entries(
    entries: Seq<(u32, ResolvedLocation)>,
    offset: u32,
    fallback: ResolvedLocation,
) -> ResolvedLocation
    decreases entries.len(),
{
    if entries.len() == 0 {
        fallback
    } else if entries[0].0 == offset {
        entries[0].1
    } else {
        lookup_entries(entries.drop_first(), offset, fallback)
    }
}

/// A byte-offset-to-location table.  Every offset resolves: offsets not
/// listed resolve to the fallback location.
pub struct LocationResolver {
    /// Listed offsets, each with the location it resolves to.
    pub entries: Vec<(u32, ResolvedLocation)>,
    /// The location reported for any offset not listed.
    pub fallback: ResolvedLocation,
}

impl LocationResolver {
    /// The location that `resolve` returns for `offset`.
    pub open spec fn resolve_spec(self, offset: u32) -> ResolvedLocation {
        lookup_entries(self.entries@, offset, self.fallback)
    }

    /// Resolves a byte offset to its file, line and column.
    pub fn resolve(&self, offset: u32) -> (r: ResolvedLocation)
        ensures
            r == self.resolve_spec(offset),
    {
        let n: usize = self.entries.len();
        let mut i: usize = 0;
        proof {
            assert(self.entries@.skip(0) =~= self.entries@);
        }
        while i < n
            invariant
                i <= n,
                n == self.entries@.len(),
                lookup_entries(self.entries@, offset, self.fallback) == lookup_entries(
                    self.entries@.skip(i as int),
                    offset,
                    self.fallback,
                ),
            decreases n - i,
        {
            let (entry_offset, entry_loc) = self.entries[i];
            proof {
                assert(self.entries@.skip(i as int)[0] == self.entries@[i as int]);
            }
            if entry_offset == offset {
                return entry_loc;
            }
            proof {
                assert(self.entries@.skip(i as int).drop_first() =~= self.entries@.skip(
                    i as int + 1,
                ));
            }
            i = i + 1;
        }
        proof {
            assert(self.entries@.skip(n as int) =~= Seq::<(u32, ResolvedLocation)>::empty());
        }
        self.fallback
    }
}

} // verus!
