//! The in-memory directory tree the builder grows while entries arrive.
//!
//! The tree merges duplicate paths, finds the directory a new entry belongs
//! to, and at finalize time drives the layout of the entry store.  Nodes
//! live in an arena addressed by integer ids; node 0 is the root.  A child
//! edge always points to a node created later than its parent, so ids
//! strictly increase along any path.

use vstd::prelude::*;

verus! {

/// Where a child of a directory leads: to another directory node of the
/// tree, or to the pending record of a file or link.
#[derive(Clone, Copy, Debug, PartialEq, Eq, Structural)]
pub enum ChildRef {
    Dir { node: usize },
    Leaf { record: usize },
}

/// One child of a directory: its name and where it leads.
#[derive(Clone, Debug, PartialEq)]
pub struct ChildSlot {
    pub name: Vec<u8>,
    pub child: ChildRef,
}

/// One directory of the tree.  `record` is the index of the directory's own
/// pending record, and `None` only for the root, which has no record.
#[derive(Clone, Debug, PartialEq)]
pub struct DirNode {
    pub record: Option<usize>,
    pub children: Vec<ChildSlot>,
}

/// The whole tree, as an arena addressed by node ids; node 0 is the root.
#[derive(Clone, Debug, PartialEq)]
pub struct TreeArena {
    pub nodes: Vec<DirNode>,
}

/// Names within one directory are pairwise distinct.
pub open spec fn distinct_names(children: Seq<ChildSlot>) -> bool {
    forall|i: int, j: int| 0 <= i < j < children.len() ==> children[i].name@ != children[j].name@
}

/// The children of one directory are kept in strictly increasing
/// byte-lexicographic name order.
pub open spec fn children_sorted(children: Seq<ChildSlot>) -> bool {
    forall|i: int, j: int|
        0 <= i < j < children.len() ==> crate::lex::lex_lt(children[i].name@, children[j].name@)
}

/// The child of `children` named `name`, if any.  With distinct names the
/// choice is unambiguous.
pub open spec fn child_with_name(children: Seq<ChildSlot>, name: Seq<u8>) -> Option<ChildRef> {
    if exists|i: int| 0 <= i < children.len() && children[i].name@ == name {
        let i = choose|i: int| 0 <= i < children.len() && children[i].name@ == name;
        Some(children[i].child)
    } else {
        None
    }
}

/// A child reference held by node `k` stays inside the arena and the record
/// table, and a directory edge leads to a strictly later node.
pub open spec fn child_ok(c: ChildRef, k: int, n_nodes: int, n_records: int) -> bool {
    match c {
        ChildRef::Dir { node } => k < node < n_nodes,
        ChildRef::Leaf { record } => 0 <= record < n_records,
    }
}

impl TreeArena {
    /// Node `k`'s local well-formedness.
    pub open spec fn node_ok(self, k: int, n_records: int) -> bool {
        &&& distinct_names(self.nodes@[k].children@)
        &&& forall|i: int| 0 <= i < self.nodes@[k].children@.len() ==> child_ok(
            self.nodes@[k].children@[i].child,
            k,
            self.nodes@.len() as int,
            n_records,
        )
    }

    /// The whole tree's well-formedness against a record table of
    /// `n_records` pending records.
    pub open spec fn wf(self, n_records: int) -> bool {
        &&& self.nodes@.len() >= 1
        &&& self.nodes@[0].record is None
        &&& forall|k: int|
            1 <= k < self.nodes@.len() ==> (#[trigger] self.nodes@[k].record) is Some
                && self.nodes@[k].record->0 < n_records
        &&& forall|k: int| 0 <= k < self.nodes@.len() ==> self.node_ok(k, n_records)
    }

    /// The directory node a path of names leads to, following only
    /// directory edges; `Some(0)` for the empty path (the root).
    pub open spec fn dir_at(self, path: Seq<Seq<u8>>) -> Option<int>
        decreases path.len(),
    {
        if path.len() == 0 {
            Some(0)
        } else {
            match self.dir_at(path.drop_last()) {
                Some(n) => {
                    if 0 <= n < self.nodes@.len() {
                        match child_with_name(self.nodes@[n].children@, path.last()) {
                            Some(ChildRef::Dir { node }) => Some(node as int),
                            _ => None,
                        }
                    } else {
                        None
                    }
                },
                None => None,
            }
        }
    }

    /// A fresh tree: the root alone, childless.
    pub fn new() -> (r: TreeArena)
        ensures
            r.nodes@.len() == 1,
            r.nodes@[0].record is None,
            r.nodes@[0].children@.len() == 0,
            forall|n: int| r.wf(n),
    {
        let mut nodes: Vec<DirNode> = Vec::new();
        nodes.push(DirNode { record: None, children: Vec::new() });
        TreeArena { nodes }
    }

    /// Looks the name up among `node`'s children.
    pub fn find_child(&self, node: usize, name: &Vec<u8>) -> (r: Option<ChildRef>)
        requires
            node < self.nodes@.len(),
            distinct_names(self.nodes@[node as int].children@),
        ensures
            r == child_with_name(self.nodes@[node as int].children@, name@),
    {
        let slots = &self.nodes[node].children;
        let ghost gslots = self.nodes@[node as int].children@;
        let mut i: usize = 0;
        while i < slots.len()
            invariant
                node < self.nodes@.len(),
                gslots == self.nodes@[node as int].children@,
                slots@ == gslots,
                distinct_names(gslots),
                i <= gslots.len(),
                forall|k: int| 0 <= k < i ==> gslots[k].name@ != name@,
            decreases slots.len() - i,
        {
            if crate::lex::name_eq(&slots[i].name, name) {
                proof {
                    assert(gslots[i as int].name@ == name@);
                    assert(child_with_name(gslots, name@) == Some(gslots[i as int].child)) by {
                        assert(exists|j: int| 0 <= j < gslots.len() && gslots[j].name@ == name@)
                            by {
                            assert((i as int) < gslots.len() && gslots[i as int].name@ == name@);
                        }
                        let j = choose|j: int| 0 <= j < gslots.len() && gslots[j].name@ == name@;
                        if j < i as int {
                            assert(gslots[j].name@ != gslots[i as int].name@);
                        } else if j > i as int {
                            assert(gslots[i as int].name@ != gslots[j].name@);
                        }
                    }
                }
                return Some(slots[i].child);
            }
            i = i + 1;
        }
        None
    }

    /// Inserts a child under a name the node does not hold yet, at the
    /// given position among its children.
    pub fn insert_child(&mut self, node: usize, pos: usize, slot: ChildSlot)
        requires
            node < old(self).nodes@.len(),
            pos <= old(self).nodes@[node as int].children@.len(),
            distinct_names(old(self).nodes@[node as int].children@),
            child_with_name(old(self).nodes@[node as int].children@, slot.name@) is None,
        ensures
            final(self).nodes@.len() == old(self).nodes@.len(),
            forall|k: int|
                0 <= k < old(self).nodes@.len() && k != node ==> final(self).nodes@[k]
                    == old(self).nodes@[k],
            final(self).nodes@[node as int].record == old(self).nodes@[node as int].record,
            final(self).nodes@[node as int].children@ == old(self).nodes@[node as
                int].children@.insert(pos as int, slot),
            distinct_names(final(self).nodes@[node as int].children@),
    {
        proof {
            lemma_insert_distinct(self.nodes@[node as int].children@, pos as int, slot);
        }
        let slots = &mut self.nodes[node].children;
        slots.insert(pos, slot);
    }

    /// Appends a fresh childless directory node and returns its id.
    pub fn push_node(&mut self, record: usize) -> (id: usize)
        ensures
            id as int == old(self).nodes@.len(),
            final(self).nodes@.len() == old(self).nodes@.len() + 1,
            forall|k: int| 0 <= k < old(self).nodes@.len() ==> final(self).nodes@[k] == old(
                self,
            ).nodes@[k],
            final(self).nodes@[id as int].record == Some(record),
            final(self).nodes@[id as int].children@.len() == 0,
    {
        let id = self.nodes.len();
        self.nodes.push(DirNode { record: Some(record), children: Vec::new() });
        proof {
            assert(final(self).nodes@[id as int].children@ =~= Seq::<ChildSlot>::empty());
        }
        id
    }
}

/// Inserting a slot whose name is free keeps the names distinct.
pub proof fn lemma_insert_distinct(s: Seq<ChildSlot>, pos: int, slot: ChildSlot)
    requires
        0 <= pos <= s.len(),
        distinct_names(s),
        child_with_name(s, slot.name@) is None,
    ensures
        distinct_names(s.insert(pos, slot)),
{
    let t = s.insert(pos, slot);
    assert(forall|i: int| 0 <= i < s.len() ==> s[i].name@ != slot.name@);
    assert forall|i: int, j: int| 0 <= i < j < t.len() implies t[i].name@ != t[j].name@ by {
        if i < pos && j < pos {
            assert(t[i] == s[i] && t[j] == s[j]);
        } else if i < pos && j == pos {
            assert(t[i] == s[i] && t[j] == slot);
        } else if i < pos && j > pos {
            assert(t[i] == s[i] && t[j] == s[j - 1]);
        } else if i == pos {
            assert(t[i] == slot && t[j] == s[j - 1]);
        } else {
            assert(t[i] == s[i - 1] && t[j] == s[j - 1]);
        }
    }
}


/// The slot at `(k, i)` of the new tree already stood, verbatim, among
/// node `k`'s children of the old tree.
pub open spec fn slot_matches_old(t_new: TreeArena, t_old: TreeArena, k: int, i: int) -> bool {
    exists|i0: int|
        0 <= i0 < t_old.nodes@[k].children@.len() && t_new.nodes@[k].children@[i] == (
        #[trigger] t_old.nodes@[k].children@[i0])
}

/// Every slot of the new tree, except the one at `(cur, pos)`, is a slot
/// the old tree already had, at the same node.
pub open spec fn slots_from_old(t_new: TreeArena, t_old: TreeArena, cur: int, pos: int) -> bool {
    forall|k: int, i: int|
        0 <= k < t_new.nodes@.len() && 0 <= i < t_new.nodes@[k].children@.len() && !(k == cur && i
            == pos) ==> #[trigger] slot_matches_old(t_new, t_old, k, i)
}

/// The old slot at `(k, i0)` still stands, verbatim, among node `k`'s
/// children of the new tree.
pub open spec fn old_slot_kept(t_old: TreeArena, t_new: TreeArena, k: int, i0: int) -> bool {
    exists|i: int|
        0 <= i < t_new.nodes@[k].children@.len() && (#[trigger] t_new.nodes@[k].children@[i])
            == t_old.nodes@[k].children@[i0]
}

/// Every slot of the old tree is still a slot of the new one, at the
/// same node.
pub open spec fn slots_all_kept(t_old: TreeArena, t_new: TreeArena) -> bool {
    forall|k: int, i0: int|
        0 <= k < t_old.nodes@.len() && 0 <= i0 < t_old.nodes@[k].children@.len()
            ==> #[trigger] old_slot_kept(t_old, t_new, k, i0)
}

/// Inserting a slot with a fresh name at its ordered position keeps every
/// structural slot fact: name order, the uniqueness of leaf and directory
/// references, and the presence of every earlier slot.
#[verifier::rlimit(80)]
pub proof fn lemma_slots_insert(
    t_old: TreeArena,
    t_new: TreeArena,
    cur: int,
    pos: int,
    slot: ChildSlot,
)
    requires
        t_new.nodes@.len() == t_old.nodes@.len(),
        0 <= cur < t_old.nodes@.len(),
        forall|k: int|
            0 <= k < t_old.nodes@.len() && k != cur ==> t_new.nodes@[k] == t_old.nodes@[k],
        t_new.nodes@[cur].record == t_old.nodes@[cur].record,
        0 <= pos <= t_old.nodes@[cur].children@.len(),
        t_new.nodes@[cur].children@ == t_old.nodes@[cur].children@.insert(pos, slot),
        forall|k: int|
            0 <= k < t_old.nodes@.len() ==> children_sorted(
                (#[trigger] t_old.nodes@[k]).children@,
            ),
        forall|j: int|
            0 <= j < t_old.nodes@[cur].children@.len()
                ==> (#[trigger] t_old.nodes@[cur].children@[j]).name@ != slot.name@,
        forall|j: int|
            0 <= j < pos ==> crate::lex::lex_lt(
                (#[trigger] t_old.nodes@[cur].children@[j]).name@,
                slot.name@,
            ),
        pos < t_old.nodes@[cur].children@.len() ==> !crate::lex::lex_lt(
            t_old.nodes@[cur].children@[pos].name@,
            slot.name@,
        ),
        leaf_refs_unique(t_old),
        dir_refs_unique(t_old),
        (slot.child matches ChildRef::Leaf { record } ==> leaf_unreferenced(t_old, record as int)),
        (slot.child matches ChildRef::Dir { node } ==> dir_unreferenced(t_old, node as int)),
    ensures
        forall|k: int|
            0 <= k < t_new.nodes@.len() ==> children_sorted(
                (#[trigger] t_new.nodes@[k]).children@,
            ),
        leaf_refs_unique(t_new),
        dir_refs_unique(t_new),
        t_new.nodes@[cur].children@[pos] == slot,
        slots_from_old(t_new, t_old, cur, pos),
        slots_all_kept(t_old, t_new),
{
    let oldc = t_old.nodes@[cur].children@;
    let newc = t_new.nodes@[cur].children@;
    // the inserted name comes strictly after everything before `pos` and
    // strictly before everything from `pos` on
    assert forall|j: int|
        pos <= j < oldc.len() implies crate::lex::lex_lt(slot.name@, (#[trigger] oldc[j]).name@) by {
        crate::lex::lemma_lex_lt_trichotomy(oldc[pos].name@, slot.name@);
        if j > pos {
            crate::lex::lemma_lex_lt_trans(slot.name@, oldc[pos].name@, oldc[j].name@);
        }
    }
    assert forall|i: int, j: int|
        0 <= i < j < newc.len() implies crate::lex::lex_lt(newc[i].name@, newc[j].name@) by {
        if j < pos {
            assert(newc[i] == oldc[i] && newc[j] == oldc[j]);
        } else if j == pos {
            assert(newc[i] == oldc[i] && newc[j] == slot);
        } else {
            assert(newc[j] == oldc[j - 1]);
            if i < pos {
                assert(newc[i] == oldc[i]);
            } else if i == pos {
                assert(newc[i] == slot);
            } else {
                assert(newc[i] == oldc[i - 1]);
            }
        }
    }
    assert forall|k: int, i: int|
        0 <= k < t_new.nodes@.len() && 0 <= i < t_new.nodes@[k].children@.len() && !(k == cur && i
            == pos) implies #[trigger] slot_matches_old(t_new, t_old, k, i) by {
        if k == cur {
            if i < pos {
                assert(t_new.nodes@[k].children@[i] == t_old.nodes@[k].children@[i]);
            } else {
                assert(t_new.nodes@[k].children@[i] == t_old.nodes@[k].children@[i - 1]);
            }
        } else {
            assert(t_new.nodes@[k].children@[i] == t_old.nodes@[k].children@[i]);
        }
    }
    assert forall|k: int, i0: int|
        0 <= k < t_old.nodes@.len() && 0 <= i0 < t_old.nodes@[k].children@.len()
            implies #[trigger] old_slot_kept(t_old, t_new, k, i0) by {
        if k == cur && i0 >= pos {
            assert(t_new.nodes@[k].children@[i0 + 1] == t_old.nodes@[k].children@[i0]);
        } else {
            assert(t_new.nodes@[k].children@[i0] == t_old.nodes@[k].children@[i0]);
        }
    }
    assert forall|k1: int, i1: int, k2: int, i2: int|
        0 <= k1 < t_new.nodes@.len() && 0 <= i1 < t_new.nodes@[k1].children@.len() && 0 <= k2
            < t_new.nodes@.len() && 0 <= i2 < t_new.nodes@[k2].children@.len() && (k1 != k2 || i1
            != i2) implies refs_differ(
        (#[trigger] t_new.nodes@[k1].children@[i1]).child,
        (#[trigger] t_new.nodes@[k2].children@[i2]).child,
    ) by {
        lemma_slot_pair(t_old, t_new, cur, pos, slot, k1, i1, k2, i2);
    }
    assert(leaf_refs_unique(t_new));
    assert(dir_refs_unique(t_new));
}

/// Two distinct slots never name the same leaf record, nor the same
/// directory node.
pub open spec fn refs_differ(c1: ChildRef, c2: ChildRef) -> bool {
    match (c1, c2) {
        (ChildRef::Leaf { record: r1 }, ChildRef::Leaf { record: r2 }) => r1 != r2,
        (ChildRef::Dir { node: m1 }, ChildRef::Dir { node: m2 }) => m1 != m2,
        _ => true,
    }
}

/// No slot of the tree names this leaf record.
pub open spec fn leaf_unreferenced(t: TreeArena, r: int) -> bool {
    forall|k: int, i: int|
        0 <= k < t.nodes@.len() && 0 <= i < t.nodes@[k].children@.len()
            ==> (#[trigger] t.nodes@[k].children@[i]).child != (ChildRef::Leaf {
            record: r as usize,
        })
}

/// No slot of the tree names this directory node.
pub open spec fn dir_unreferenced(t: TreeArena, m: int) -> bool {
    forall|k: int, i: int|
        0 <= k < t.nodes@.len() && 0 <= i < t.nodes@[k].children@.len()
            ==> (#[trigger] t.nodes@[k].children@[i]).child != (ChildRef::Dir {
            node: m as usize,
        })
}

/// No two slots of the tree name the same leaf record.
pub open spec fn leaf_refs_unique(t: TreeArena) -> bool {
    forall|k1: int, i1: int, k2: int, i2: int|
        0 <= k1 < t.nodes@.len() && 0 <= i1 < t.nodes@[k1].children@.len() && 0 <= k2
            < t.nodes@.len() && 0 <= i2 < t.nodes@[k2].children@.len() && (k1 != k2 || i1 != i2)
            ==> (match ((#[trigger] t.nodes@[k1].children@[i1]).child, (
        #[trigger] t.nodes@[k2].children@[i2]).child) {
            (ChildRef::Leaf { record: r1 }, ChildRef::Leaf { record: r2 }) => r1 != r2,
            _ => true,
        })
}

/// No two slots of the tree name the same directory node.
pub open spec fn dir_refs_unique(t: TreeArena) -> bool {
    forall|k1: int, i1: int, k2: int, i2: int|
        0 <= k1 < t.nodes@.len() && 0 <= i1 < t.nodes@[k1].children@.len() && 0 <= k2
            < t.nodes@.len() && 0 <= i2 < t.nodes@[k2].children@.len() && (k1 != k2 || i1 != i2)
            ==> (match ((#[trigger] t.nodes@[k1].children@[i1]).child, (
        #[trigger] t.nodes@[k2].children@[i2]).child) {
            (ChildRef::Dir { node: m1 }, ChildRef::Dir { node: m2 }) => m1 != m2,
            _ => true,
        })
}

/// One pair of slots after an insert: both map back to old slots, or one
/// is the fresh slot, whose reference nothing old shares.
proof fn lemma_slot_pair(
    t_old: TreeArena,
    t_new: TreeArena,
    cur: int,
    pos: int,
    slot: ChildSlot,
    k1: int,
    i1: int,
    k2: int,
    i2: int,
)
    requires
        t_new.nodes@.len() == t_old.nodes@.len(),
        0 <= cur < t_old.nodes@.len(),
        forall|k: int|
            0 <= k < t_old.nodes@.len() && k != cur ==> t_new.nodes@[k] == t_old.nodes@[k],
        0 <= pos <= t_old.nodes@[cur].children@.len(),
        t_new.nodes@[cur].children@ == t_old.nodes@[cur].children@.insert(pos, slot),
        leaf_refs_unique(t_old),
        dir_refs_unique(t_old),
        (slot.child matches ChildRef::Leaf { record } ==> leaf_unreferenced(t_old, record as int)),
        (slot.child matches ChildRef::Dir { node } ==> dir_unreferenced(t_old, node as int)),
        0 <= k1 < t_new.nodes@.len(),
        0 <= i1 < t_new.nodes@[k1].children@.len(),
        0 <= k2 < t_new.nodes@.len(),
        0 <= i2 < t_new.nodes@[k2].children@.len(),
        k1 != k2 || i1 != i2,
    ensures
        refs_differ(t_new.nodes@[k1].children@[i1].child, t_new.nodes@[k2].children@[i2].child),
{
    let o1 = if k1 == cur && i1 > pos {
        i1 - 1
    } else {
        i1
    };
    let o2 = if k2 == cur && i2 > pos {
        i2 - 1
    } else {
        i2
    };
    let fresh1 = k1 == cur && i1 == pos;
    let fresh2 = k2 == cur && i2 == pos;
    if !fresh1 {
        assert(t_new.nodes@[k1].children@[i1] == t_old.nodes@[k1].children@[o1]);
    }
    if !fresh2 {
        assert(t_new.nodes@[k2].children@[i2] == t_old.nodes@[k2].children@[o2]);
    }
    if fresh1 && fresh2 {
        assert(false);
    }
}

/// Some slot of the tree names this leaf record.
pub open spec fn leaf_covered(t: TreeArena, r: int) -> bool {
    exists|k: int, i: int|
        0 <= k < t.nodes@.len() && 0 <= i < t.nodes@[k].children@.len() && (
        #[trigger] t.nodes@[k].children@[i]).child == (ChildRef::Leaf { record: r as usize })
}

/// Some slot of the tree names this directory node.
pub open spec fn dir_covered(t: TreeArena, m: int) -> bool {
    exists|k: int, i: int|
        0 <= k < t.nodes@.len() && 0 <= i < t.nodes@[k].children@.len() && (
        #[trigger] t.nodes@[k].children@[i]).child == (ChildRef::Dir { node: m as usize })
}

/// A well-formed tree references neither the record index just past its
/// table nor the node id just past its arena: every reference is older.
pub proof fn lemma_fresh_refs(t: TreeArena, n_records: int)
    requires
        t.wf(n_records),
        0 <= n_records <= usize::MAX,
    ensures
        leaf_unreferenced(t, n_records),
        dir_unreferenced(t, t.nodes@.len() as int),
{
    assert(t.nodes@.len() == t.nodes.len());
    assert forall|k: int, i: int|
        0 <= k < t.nodes@.len() && 0 <= i < t.nodes@[k].children@.len() implies (
    #[trigger] t.nodes@[k].children@[i]).child != (ChildRef::Leaf {
        record: n_records as usize,
    }) && t.nodes@[k].children@[i].child != (ChildRef::Dir {
        node: t.nodes@.len() as usize,
    }) by {
        assert(t.node_ok(k, n_records));
        assert(child_ok(t.nodes@[k].children@[i].child, k, t.nodes@.len() as int, n_records));
    }
}

/// Appending a childless node changes no slot: name order, reference
/// uniqueness and the presence of every slot carry over.
pub proof fn lemma_slots_push_node(t_old: TreeArena, t_new: TreeArena)
    requires
        t_new.nodes@.len() == t_old.nodes@.len() + 1,
        forall|k: int| 0 <= k < t_old.nodes@.len() ==> t_new.nodes@[k] == t_old.nodes@[k],
        t_new.nodes@[t_old.nodes@.len() as int].children@.len() == 0,
        forall|k: int|
            0 <= k < t_old.nodes@.len() ==> children_sorted(
                (#[trigger] t_old.nodes@[k]).children@,
            ),
        leaf_refs_unique(t_old),
        dir_refs_unique(t_old),
    ensures
        forall|k: int|
            0 <= k < t_new.nodes@.len() ==> children_sorted(
                (#[trigger] t_new.nodes@[k]).children@,
            ),
        leaf_refs_unique(t_new),
        dir_refs_unique(t_new),
        slots_all_kept(t_old, t_new),
{
    let n = t_old.nodes@.len() as int;
    assert forall|k: int|
        0 <= k < t_new.nodes@.len() implies children_sorted(
        (#[trigger] t_new.nodes@[k]).children@,
    ) by {
        if k < n {
            assert(t_new.nodes@[k] == t_old.nodes@[k]);
            assert(children_sorted(t_old.nodes@[k].children@));
        }
    }
    assert forall|k1: int, i1: int, k2: int, i2: int|
        0 <= k1 < t_new.nodes@.len() && 0 <= i1 < t_new.nodes@[k1].children@.len() && 0 <= k2
            < t_new.nodes@.len() && 0 <= i2 < t_new.nodes@[k2].children@.len() && (k1 != k2 || i1
            != i2) implies refs_differ(
        (#[trigger] t_new.nodes@[k1].children@[i1]).child,
        (#[trigger] t_new.nodes@[k2].children@[i2]).child,
    ) by {
        assert(t_new.nodes@[k1] == t_old.nodes@[k1]);
        assert(t_new.nodes@[k2] == t_old.nodes@[k2]);
    }
    assert(leaf_refs_unique(t_new));
    assert(dir_refs_unique(t_new));
    assert forall|k: int, i0: int|
        0 <= k < t_old.nodes@.len() && 0 <= i0 < t_old.nodes@[k].children@.len()
            implies #[trigger] old_slot_kept(t_old, t_new, k, i0) by {
        assert(t_new.nodes@[k].children@[i0] == t_old.nodes@[k].children@[i0]);
    }
}

/// A name that resolves in a set of children still resolves, to the same
/// child, after a slot with a different, fresh name is inserted.
pub proof fn lemma_child_with_name_insert(s: Seq<ChildSlot>, pos: int, slot: ChildSlot, nm: Seq<u8>)
    requires
        0 <= pos <= s.len(),
        distinct_names(s),
        child_with_name(s, slot.name@) is None,
    ensures
        child_with_name(s.insert(pos, slot), slot.name@) == Some(slot.child),
        nm != slot.name@ ==> child_with_name(s.insert(pos, slot), nm) == child_with_name(s, nm),
{
    let t = s.insert(pos, slot);
    assert(forall|i: int| 0 <= i < s.len() ==> s[i].name@ != slot.name@);
    assert(t[pos] == slot);
    if child_with_name(t, slot.name@) != Some(slot.child) {
        let j = choose|j: int| 0 <= j < t.len() && t[j].name@ == slot.name@;
        if j != pos {
            if j < pos {
                assert(t[j] == s[j]);
            } else {
                assert(t[j] == s[j - 1]);
            }
            assert(false);
        }
        assert(false);
    }
    if nm != slot.name@ {
        if exists|i: int| 0 <= i < s.len() && s[i].name@ == nm {
            let i = choose|i: int| 0 <= i < s.len() && s[i].name@ == nm;
            let iw = if i < pos {
                i
            } else {
                i + 1
            };
            assert(t[iw] == s[i]);
            assert(child_with_name(s, nm) == Some(s[i].child)) by {
                let i2 = choose|i2: int| 0 <= i2 < s.len() && s[i2].name@ == nm;
                if i2 < i {
                    assert(s[i2].name@ != s[i].name@);
                } else if i2 > i {
                    assert(s[i].name@ != s[i2].name@);
                }
            }
            assert(child_with_name(t, nm) == Some(s[i].child)) by {
                lemma_insert_distinct(s, pos, slot);
                let j2 = choose|j2: int| 0 <= j2 < t.len() && t[j2].name@ == nm;
                if j2 < iw {
                    assert(t[j2].name@ != t[iw].name@);
                } else if j2 > iw {
                    assert(t[iw].name@ != t[j2].name@);
                }
            }
        } else {
            assert(child_with_name(s, nm) is None);
            if exists|j: int| 0 <= j < t.len() && t[j].name@ == nm {
                let j = choose|j: int| 0 <= j < t.len() && t[j].name@ == nm;
                if j < pos {
                    assert(s[j].name@ == nm);
                } else if j > pos {
                    assert(s[j - 1].name@ == nm);
                }
                assert(false);
            }
        }
    }
}

/// A resolved path keeps resolving, to the same node, after new nodes are
/// appended to the arena.
pub proof fn lemma_dir_at_push_node(t1: TreeArena, t2: TreeArena, p: Seq<Seq<u8>>, n_records: int)
    requires
        t1.wf(n_records),
        t2.nodes@.len() >= t1.nodes@.len(),
        forall|k: int| 0 <= k < t1.nodes@.len() ==> t2.nodes@[k] == t1.nodes@[k],
        t1.dir_at(p) is Some,
    ensures
        t2.dir_at(p) == t1.dir_at(p),
    decreases p.len(),
{
    if p.len() > 0 {
        lemma_dir_at_push_node(t1, t2, p.drop_last(), n_records);
        lemma_dir_at_in_range(t1, p.drop_last(), n_records);
    }
}

/// A resolved path keeps resolving, to the same node, after a child with a
/// fresh name is inserted anywhere.
pub proof fn lemma_dir_at_insert_child(
    t1: TreeArena,
    t2: TreeArena,
    c: int,
    pos: int,
    slot: ChildSlot,
    p: Seq<Seq<u8>>,
)
    requires
        t2.nodes@.len() == t1.nodes@.len(),
        0 <= c < t1.nodes@.len(),
        distinct_names(t1.nodes@[c].children@),
        child_with_name(t1.nodes@[c].children@, slot.name@) is None,
        forall|k: int| 0 <= k < t1.nodes@.len() && k != c ==> t2.nodes@[k] == t1.nodes@[k],
        t2.nodes@[c].record == t1.nodes@[c].record,
        0 <= pos <= t1.nodes@[c].children@.len(),
        t2.nodes@[c].children@ == t1.nodes@[c].children@.insert(pos, slot),
        t1.dir_at(p) is Some,
    ensures
        t2.dir_at(p) == t1.dir_at(p),
    decreases p.len(),
{
    if p.len() > 0 {
        lemma_dir_at_insert_child(t1, t2, c, pos, slot, p.drop_last());
        match t1.dir_at(p.drop_last()) {
            Some(n) => {
                if 0 <= n < t1.nodes@.len() {
                    if n == c {
                        match child_with_name(t1.nodes@[n].children@, p.last()) {
                            Some(_) => {
                                assert(p.last() != slot.name@);
                                lemma_child_with_name_insert(
                                    t1.nodes@[c].children@,
                                    pos,
                                    slot,
                                    p.last(),
                                );
                            },
                            None => {},
                        }
                    }
                }
            },
            None => {},
        }
    }
}

/// Well-formedness survives growth of the record table.
pub proof fn lemma_wf_grow(t: TreeArena, n1: int, n2: int)
    requires
        t.wf(n1),
        n1 <= n2,
    ensures
        t.wf(n2),
{
    assert forall|k: int| 0 <= k < t.nodes@.len() implies t.node_ok(k, n2) by {
        assert(t.node_ok(k, n1));
        assert forall|i: int| 0 <= i < t.nodes@[k].children@.len() implies child_ok(
            t.nodes@[k].children@[i].child,
            k,
            t.nodes@.len() as int,
            n2,
        ) by {
            assert(child_ok(t.nodes@[k].children@[i].child, k, t.nodes@.len() as int, n1));
        }
    }
}

/// Appending a childless node whose record is in range keeps the tree
/// well-formed.
pub proof fn lemma_wf_push_node(t_old: TreeArena, t_new: TreeArena, rec: usize, n_records: int)
    requires
        t_old.wf(n_records),
        0 <= rec < n_records,
        t_new.nodes@.len() == t_old.nodes@.len() + 1,
        forall|k: int| 0 <= k < t_old.nodes@.len() ==> t_new.nodes@[k] == t_old.nodes@[k],
        t_new.nodes@[t_old.nodes@.len() as int].record == Some(rec),
        t_new.nodes@[t_old.nodes@.len() as int].children@.len() == 0,
    ensures
        t_new.wf(n_records),
{
    let n = t_old.nodes@.len() as int;
    assert forall|k: int| 0 <= k < t_new.nodes@.len() implies t_new.node_ok(k, n_records) by {
        if k < n {
            assert(t_old.node_ok(k, n_records));
            assert(t_new.nodes@[k] == t_old.nodes@[k]);
            assert forall|i: int| 0 <= i < t_new.nodes@[k].children@.len() implies child_ok(
                t_new.nodes@[k].children@[i].child,
                k,
                t_new.nodes@.len() as int,
                n_records,
            ) by {
                assert(child_ok(t_old.nodes@[k].children@[i].child, k, n, n_records));
            }
        }
    }
}

/// Inserting a well-aimed child slot keeps the tree well-formed.
pub proof fn lemma_wf_insert_child(
    t_old: TreeArena,
    t_new: TreeArena,
    node: int,
    pos: int,
    slot: ChildSlot,
    n_records: int,
)
    requires
        t_old.wf(n_records),
        0 <= node < t_old.nodes@.len(),
        child_ok(slot.child, node, t_old.nodes@.len() as int, n_records),
        t_new.nodes@.len() == t_old.nodes@.len(),
        forall|k: int|
            0 <= k < t_old.nodes@.len() && k != node ==> t_new.nodes@[k] == t_old.nodes@[k],
        t_new.nodes@[node].record == t_old.nodes@[node].record,
        0 <= pos <= t_old.nodes@[node].children@.len(),
        t_new.nodes@[node].children@ == t_old.nodes@[node].children@.insert(pos, slot),
        distinct_names(t_new.nodes@[node].children@),
    ensures
        t_new.wf(n_records),
{
    let n = t_old.nodes@.len() as int;
    assert forall|k: int|
        1 <= k < t_new.nodes@.len() implies (#[trigger] t_new.nodes@[k].record) is Some
            && t_new.nodes@[k].record->0 < n_records by {
        if k != node {
            assert(t_new.nodes@[k] == t_old.nodes@[k]);
        }
    }
    assert forall|k: int| 0 <= k < t_new.nodes@.len() implies t_new.node_ok(k, n_records) by {
        assert(t_old.node_ok(k, n_records));
        if k != node {
            assert(t_new.nodes@[k] == t_old.nodes@[k]);
            assert forall|i: int| 0 <= i < t_new.nodes@[k].children@.len() implies child_ok(
                t_new.nodes@[k].children@[i].child,
                k,
                n,
                n_records,
            ) by {
                assert(child_ok(t_old.nodes@[k].children@[i].child, k, n, n_records));
            }
        } else {
            let oldc = t_old.nodes@[node].children@;
            let newc = t_new.nodes@[node].children@;
            assert forall|i: int| 0 <= i < newc.len() implies child_ok(
                newc[i].child,
                k,
                n,
                n_records,
            ) by {
                if i < pos {
                    assert(newc[i] == oldc[i]);
                    assert(child_ok(oldc[i].child, k, n, n_records));
                } else if i == pos {
                    assert(newc[i] == slot);
                } else {
                    assert(newc[i] == oldc[i - 1]);
                    assert(child_ok(oldc[i - 1].child, k, n, n_records));
                }
            }
        }
    }
}

/// With no records at all, a well-formed tree's root is childless: every
/// child slot would have to reach a record, and there is none.
pub proof fn lemma_no_records_no_children(t: TreeArena)
    requires
        t.wf(0),
    ensures
        t.nodes@[0].children@.len() == 0,
{
    if t.nodes@[0].children@.len() > 0 {
        assert(t.node_ok(0, 0));
        let c = t.nodes@[0].children@[0].child;
        assert(child_ok(c, 0, t.nodes@.len() as int, 0));
        match c {
            ChildRef::Dir { node } => {
                assert(1 <= node < t.nodes@.len());
                assert(t.nodes@[node as int].record->0 < 0);
            },
            ChildRef::Leaf { record } => {
                assert(0 <= record < 0);
            },
        }
    }
}

/// A resolved child of a well-formed node stays inside the arena and the
/// record table, and a directory edge leads past its parent.
pub proof fn lemma_child_ok(t: TreeArena, n: int, nm: Seq<u8>, n_records: int)
    requires
        t.wf(n_records),
        0 <= n < t.nodes@.len(),
    ensures
        child_with_name(t.nodes@[n].children@, nm) matches Some(c) ==> child_ok(
            c,
            n,
            t.nodes@.len() as int,
            n_records,
        ),
{
    let children = t.nodes@[n].children@;
    if child_with_name(children, nm) is Some {
        let j = choose|j: int| 0 <= j < children.len() && children[j].name@ == nm;
        assert(t.node_ok(n, n_records));
        assert(child_ok(children[j].child, n, t.nodes@.len() as int, n_records));
    }
}

/// In a well-formed tree, every resolved directory node id is in range.
pub proof fn lemma_dir_at_in_range(t: TreeArena, path: Seq<Seq<u8>>, n_records: int)
    requires
        t.wf(n_records),
    ensures
        t.dir_at(path) matches Some(n) ==> 0 <= n < t.nodes@.len(),
    decreases path.len(),
{
    if path.len() > 0 {
        lemma_dir_at_in_range(t, path.drop_last(), n_records);
        match t.dir_at(path.drop_last()) {
            Some(n) => {
                if 0 <= n < t.nodes@.len() {
                    lemma_child_ok(t, n, path.last(), n_records);
                }
            },
            None => {},
        }
    }
}

/// A path that leads to a directory does so through directories at every
/// prefix.
pub proof fn lemma_dir_at_prefix(t: TreeArena, path: Seq<Seq<u8>>, i: int)
    requires
        0 <= i <= path.len(),
        t.dir_at(path) is Some,
    ensures
        t.dir_at(path.take(i)) is Some,
    decreases path.len() - i,
{
    if i < path.len() {
        lemma_dir_at_prefix(t, path.drop_last(), i);
        assert(path.drop_last().take(i) =~= path.take(i));
    } else {
        assert(path.take(i) =~= path);
    }
}

} // verus!
