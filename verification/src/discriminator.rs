//! The discriminator table: a per-function count of the inlining events
//! already observed at each callsite byte offset.  It disambiguates distinct
//! call sites that collapse to the same textual source position.

use vstd::prelude::*;

verus! {

/// First value recorded for `offset`, scanning from the front.
pub open spec fn discr_lookup(entries: Seq<(u32, u32)>, offset: u32) -> Option<u32>
    decreases entries.len(),
{
    if entries.len() == 0 {
        None
    } else if entries[0].0 == offset {
        Some(entries[0].1)
    } else {
        discr_lookup(entries.drop_first(), offset)
    }
}

proof fn lemma_lookup_found(entries: Seq<(u32, u32)>, offset: u32, i: int)
    requires
        0 <= i < entries.len(),
        entries[i].0 == offset,
        forall|j: int| 0 <= j < i ==> entries[j].0 != offset,
    ensures
        discr_lookup(entries, offset) == Some(entries[i].1),
    decreases i,
{
    if i > 0 {
        assert(entries.drop_first()[i - 1] == entries[i]);
        assert(forall|j: int| 0 <= j < i - 1 ==> entries.drop_first()[j] == entries[j + 1]);
        lemma_lookup_found(entries.drop_first(), offset, i - 1);
    }
}

proof fn lemma_lookup_absent(entries: Seq<(u32, u32)>, offset: u32)
    requires
        forall|j: int| 0 <= j < entries.len() ==> entries[j].0 != offset,
    ensures
        discr_lookup(entries, offset) is None,
    decreases entries.len(),
{
    if entries.len() > 0 {
        assert(forall|j: int|
            0 <= j < entries.drop_first().len() ==> entries.drop_first()[j] == entries[j + 1]);
        lemma_lookup_absent(entries.drop_first(), offset);
    }
}

proof fn lemma_lookup_update_value(entries: Seq<(u32, u32)>, i: int, v: u32, o: u32)
    requires
        0 <= i < entries.len(),
        o != entries[i].0,
    ensures
        discr_lookup(entries.update(i, (entries[i].0, v)), o) == discr_lookup(entries, o),
    decreases i,
{
    let updated = entries.update(i, (entries[i].0, v));
    if i == 0 {
        assert(updated.drop_first() =~= entries.drop_first());
    } else {
        assert(updated[0] == entries[0]);
        if entries[0].0 != o {
            assert(updated.drop_first() =~= entries.drop_first().update(i - 1, (entries[i].0, v)));
            assert(entries.drop_first()[i - 1] == entries[i]);
            lemma_lookup_update_value(entries.drop_first(), i - 1, v, o);
        }
    }
}

proof fn lemma_lookup_push(entries: Seq<(u32, u32)>, k: u32, v: u32, o: u32)
    ensures
        discr_lookup(entries.push((k, v)), o) == if discr_lookup(entries, o) is Some {
            discr_lookup(entries, o)
        } else if o == k {
            Some(v)
        } else {
            None
        },
    decreases entries.len(),
{
    let pushed = entries.push((k, v));
    if entries.len() == 0 {
        assert(pushed[0] == (k, v));
        assert(pushed.drop_first() =~= Seq::<(u32, u32)>::empty());
        assert(discr_lookup(Seq::<(u32, u32)>::empty(), o) is None);
    } else {
        assert(pushed[0] == entries[0]);
        if entries[0].0 != o {
            assert(pushed.drop_first() =~= entries.drop_first().push((k, v)));
            lemma_lookup_push(entries.drop_first(), k, v, o);
        }
    }
}

/// The per-function mapping from a callsite byte offset to the number of
/// prior inlining events seen at exactly that offset.  Created empty for
/// each function's pass, purely additive, discarded afterwards.
pub struct DiscriminatorTable {
    entries: Vec<(u32, u32)>,
}

impl View for DiscriminatorTable {
    type V = Map<u32, u32>;

    closed spec fn view(&self) -> Map<u32, u32> {
        Map::new(
            |o: u32| discr_lookup(self.entries@, o) is Some,
            |o: u32| discr_lookup(self.entries@, o)->0,
        )
    }
}

impl DiscriminatorTable {
    /// An empty table: no offset has seen any inlining event yet.
    pub fn new() -> (r: Self)
        ensures
            r@ == Map::<u32, u32>::empty(),
    {
        let r = DiscriminatorTable { entries: Vec::new() };
        proof {
            assert(r@ =~= Map::<u32, u32>::empty());
        }
        r
    }

    /// The count stored for `offset`, if any inlining event was seen there.
    pub fn count(&self, offset: u32) -> (r: Option<u32>)
        ensures
            r == if self@.contains_key(offset) {
                Some(self@[offset])
            } else {
                None::<u32>
            },
    {
        let n: usize = self.entries.len();
        let mut i: usize = 0;
        while i < n
            invariant
                i <= n,
                n == self.entries@.len(),
                forall|j: int| 0 <= j < i ==> self.entries@[j].0 != offset,
            decreases n - i,
        {
            let (k, v) = self.entries[i];
            if k == offset {
                proof {
                    lemma_lookup_found(self.entries@, offset, i as int);
                }
                return Some(v);
            }
            i = i + 1;
        }
        proof {
            lemma_lookup_absent(self.entries@, offset);
        }
        None
    }

    /// The discriminator for the next inlining event at `offset`: 0 on the
    /// first event there, then 1, 2, and so on, never decreasing within a
    /// function's pass.  The returned value is also the new stored count.
    pub fn next(&mut self, offset: u32) -> (d: u32)
        requires
            old(self)@.contains_key(offset) ==> old(self)@[offset] < u32::MAX,
        ensures
            d == if old(self)@.contains_key(offset) {
                (old(self)@[offset] + 1) as u32
            } else {
                0u32
            },
            final(self)@ == old(self)@.insert(offset, d),
    {
        let ghost pre = self.entries@;
        let n: usize = self.entries.len();
        let mut i: usize = 0;
        while i < n
            invariant
                i <= n,
                n == self.entries@.len(),
                self.entries@ == pre,
                old(self)@.contains_key(offset) ==> old(self)@[offset] < u32::MAX,
                self@ == old(self)@,
                forall|j: int| 0 <= j < i ==> self.entries@[j].0 != offset,
            decreases n - i,
        {
            let (k, v) = self.entries[i];
            if k == offset {
                proof {
                    lemma_lookup_found(pre, offset, i as int);
                }
                let d: u32 = v + 1;
                self.entries[i] = (offset, d);
                proof {
                    assert(self.entries@ =~= pre.update(i as int, (pre[i as int].0, d)));
                    lemma_lookup_found(self.entries@, offset, i as int);
                    assert forall|o: u32| o != offset implies discr_lookup(self.entries@, o)
                        == discr_lookup(pre, o) by {
                        lemma_lookup_update_value(pre, i as int, d, o);
                    }
                    assert(self@ =~= old(self)@.insert(offset, d));
                }
                return d;
            }
            i = i + 1;
        }
        proof {
            lemma_lookup_absent(pre, offset);
        }
        self.entries.push((offset, 0));
        proof {
            assert forall|o: u32| discr_lookup(self.entries@, o) == (if discr_lookup(pre, o)
                is Some {
                discr_lookup(pre, o)
            } else if o == offset {
                Some(0u32)
            } else {
                None::<u32>
            }) by {
                lemma_lookup_push(pre, offset, 0, o);
            }
            assert(self@ =~= old(self)@.insert(offset, 0));
        }
        0
    }
}

} // verus!
