//! The innovation tracker: a monotonically increasing counter of structural
//! innovations, with a per-generation dedup table so that the same structural
//! mutation arising twice in one generation gets one id.
use vstd::prelude::*;

verus! {

/// One issued innovation: the connection endpoints and the id they received
/// in the current generation's window.
#[derive(Clone, Copy, PartialEq, Eq, Structural, Debug)]
pub struct InnovationRecord {
    pub in_node: u32,
    pub out_node: u32,
    pub id: u64,
}

/// Counter plus the current generation's dedup table. The counter never
/// resets for the lifetime of a run; the table is cleared at each
/// generation boundary.
#[derive(Clone, Debug)]
pub struct InnovationTracker {
    pub next_id: u64,
    pub entries: Vec<InnovationRecord>,
}

/// The id already issued for `(i, o)` in the current window, if any.
pub open spec fn spec_lookup(entries: Seq<InnovationRecord>, i: u32, o: u32) -> Option<u64>
    decreases entries.len(),
{
    if entries.len() == 0 {
        None::<u64>
    } else if entries[0].in_node == i && entries[0].out_node == o {
        Some(entries[0].id)
    } else {
        spec_lookup(entries.skip(1), i, o)
    }
}

/// Some recorded innovation carries this id.
pub open spec fn entry_with_id(entries: Seq<InnovationRecord>, id: u64) -> bool {
    exists|k: int| 0 <= k < entries.len() && (#[trigger] entries[k]).id == id
}

/// The tracker only grew inside one generation window: old records are
/// untouched, and every new record's id was issued by the counter in
/// between.
pub open spec fn entries_extended(pre: InnovationTracker, post: InnovationTracker) -> bool {
    &&& post.next_id >= pre.next_id
    &&& post.entries@.len() >= pre.entries@.len()
    &&& forall|k: int| 0 <= k < pre.entries@.len()
            ==> (#[trigger] post.entries@[k]) == pre.entries@[k]
    &&& forall|k: int| pre.entries@.len() <= k < post.entries@.len()
            ==> pre.next_id <= (#[trigger] post.entries@[k]).id < post.next_id
}

/// Growing inside a window is transitive.
pub proof fn lemma_entries_extended_trans(
    a: InnovationTracker,
    b: InnovationTracker,
    c: InnovationTracker,
)
    requires
        entries_extended(a, b),
        entries_extended(b, c),
    ensures
        entries_extended(a, c),
{
}

/// A recorded id stays recorded while the tracker only grows.
pub proof fn lemma_entry_with_id_extended(pre: InnovationTracker, post: InnovationTracker, id: u64)
    requires
        entries_extended(pre, post),
        entry_with_id(pre.entries@, id),
    ensures
        entry_with_id(post.entries@, id),
{
    let k = choose|k: int| 0 <= k < pre.entries@.len() && (#[trigger] pre.entries@[k]).id == id;
    assert(post.entries@[k].id == id);
}

/// A successful lookup names a recorded innovation: the pair and its id
/// stand in the table.
pub proof fn lemma_lookup_entry(entries: Seq<InnovationRecord>, i: u32, o: u32, id: u64)
    requires
        spec_lookup(entries, i, o) == Some(id),
    ensures
        entry_with_id(entries, id),
        (exists|k: int| 0 <= k < entries.len()
            && (#[trigger] entries[k]) == (InnovationRecord { in_node: i, out_node: o, id })),
    decreases entries.len(),
{
    if entries.len() > 0 {
        if entries[0].in_node == i && entries[0].out_node == o {
            assert(entries[0].id == id);
            assert(entries[0] == InnovationRecord { in_node: i, out_node: o, id });
        } else {
            lemma_lookup_entry(entries.skip(1), i, o, id);
            let k = choose|k: int| 0 <= k < entries.skip(1).len()
                && (#[trigger] entries.skip(1)[k]) == InnovationRecord { in_node: i, out_node: o, id };
            assert(entries[k + 1] == InnovationRecord { in_node: i, out_node: o, id });
            assert(entries[k + 1].id == id);
        }
    }
}

/// Exactly what one `get_or_create` call does: a hit returns the stored id
/// and changes nothing; a miss issues `pre.next_id`, advances the counter,
/// and records the pair.
pub open spec fn get_or_create_post(
    pre: InnovationTracker,
    post: InnovationTracker,
    i: u32,
    o: u32,
    id: u64,
) -> bool {
    &&& spec_lookup(post.entries@, i, o) == Some(id)
    &&& match spec_lookup(pre.entries@, i, o) {
        Some(prev) => id == prev && post == pre,
        None => {
            &&& id == pre.next_id
            &&& post.next_id == pre.next_id + 1
            &&& post.entries@ == pre.entries@.push(
                InnovationRecord { in_node: i, out_node: o, id },
            )
        },
    }
}

impl InnovationTracker {
    /// Every recorded id was issued by the counter.
    pub open spec fn wf(self) -> bool {
        forall|k: int| 0 <= k < self.entries@.len() ==> (#[trigger] self.entries@[k]).id < self.next_id
    }

    pub fn new() -> (r: InnovationTracker)
        ensures
            r.wf(),
            r.next_id == 0,
            r.entries@.len() == 0,
    {
        InnovationTracker { next_id: 0, entries: Vec::new() }
    }

    /// Returns the id already issued for `(i, o)` in this generation, or
    /// issues a fresh one. Two calls with the same pair in one generation
    /// window therefore return the same id.
    pub fn get_or_create(&mut self, i: u32, o: u32) -> (id: u64)
        requires
            old(self).wf(),
            old(self).next_id < u64::MAX,
        ensures
            final(self).wf(),
            get_or_create_post(*old(self), *final(self), i, o, id),
            entries_extended(*old(self), *final(self)),
            final(self).next_id <= old(self).next_id + 1,
            id < final(self).next_id,
    {
        let n = self.entries.len();
        let mut k: usize = 0;
        proof {
            assert(self.entries@.skip(0) =~= self.entries@);
        }
        while k < n
            invariant
                n == self.entries@.len(),
                k <= n,
                spec_lookup(self.entries@, i, o) == spec_lookup(self.entries@.skip(k as int), i, o),
            decreases n - k,
        {
            let e = self.entries[k];
            proof {
                assert(self.entries@.skip(k as int)[0] == self.entries@[k as int]);
                assert(self.entries@.skip(k as int).skip(1) =~= self.entries@.skip(k as int + 1));
            }
            if e.in_node == i && e.out_node == o {
                return e.id;
            }
            k = k + 1;
        }
        proof {
            assert(self.entries@.skip(n as int) =~= Seq::<InnovationRecord>::empty());
        }
        let id = self.next_id;
        self.next_id = self.next_id + 1;
        self.entries.push(InnovationRecord { in_node: i, out_node: o, id });
        proof {
            lemma_lookup_push(old(self).entries@, i, o, id);
        }
        id
    }

    /// Clears the dedup window at a generation boundary; the counter is kept.
    pub fn advance_generation(&mut self)
        requires
            old(self).wf(),
        ensures
            final(self).wf(),
            final(self).next_id == old(self).next_id,
            final(self).entries@.len() == 0,
    {
        self.entries.clear();
    }
}

/// Pushing a record for a pair not yet present makes lookup of that pair
/// find it.
proof fn lemma_lookup_push(entries: Seq<InnovationRecord>, i: u32, o: u32, id: u64)
    requires
        spec_lookup(entries, i, o) is None,
    ensures
        spec_lookup(
            entries.push(InnovationRecord { in_node: i, out_node: o, id }),
            i,
            o,
        ) == Some(id),
    decreases entries.len(),
{
    let pushed = entries.push(InnovationRecord { in_node: i, out_node: o, id });
    if entries.len() == 0 {
        assert(pushed[0] == InnovationRecord { in_node: i, out_node: o, id });
    } else {
        assert(pushed[0] == entries[0]);
        assert(pushed.skip(1) =~= entries.skip(1).push(
            InnovationRecord { in_node: i, out_node: o, id },
        ));
        lemma_lookup_push(entries.skip(1), i, o, id);
    }
}

/// Two structural mutations of the same `(i, o)` pair inside one generation
/// window receive the same innovation id, whatever happened to the tracker
/// in the second call.
pub proof fn lemma_same_pair_same_generation(
    t0: InnovationTracker,
    t1: InnovationTracker,
    t2: InnovationTracker,
    i: u32,
    o: u32,
    id1: u64,
    id2: u64,
)
    requires
        get_or_create_post(t0, t1, i, o, id1),
        get_or_create_post(t1, t2, i, o, id2),
    ensures
        id2 == id1,
{
}

} // verus!
