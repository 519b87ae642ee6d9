//! The archive builder: ingests entry descriptors, grows the directory
//! tree, and at finalize time resolves every deferred index and lays the
//! entry store out sorted by `(parent, name)`.
//!
//! While entries arrive, a directory record's `first_child`, `child_count`
//! and every record's `parent` index are still unknown: they depend on the
//! final layout.  A pending record therefore names the tree node it depends
//! on instead of a number, and finalize resolves all of them in one pass
//! over the frozen tree.

use vstd::prelude::*;
use crate::content::{ClusterPlan, ContentPackPlan, spec_should_compress};
use crate::entry::{Attrs, Compression, ConcatMode, ContentAddress, CONTENT_PACK_ID, EntryDesc,
    EntryKind, EntryPayload, EntryRecord, synthesized_dir_attrs};
use crate::error::ArxError;
use crate::layout::{outputs_ok, plan_outputs};
use crate::plan::{ArchivePlan, IndexInfo, IndexName, check_parents, check_ranges, check_sorted,
    order_covers, parents_valid, record_matches, sibling_contiguous, strictly_sorted};
use crate::tree::{child_with_name, children_sorted, dir_covered, dir_refs_unique,
    leaf_covered, leaf_refs_unique, slot_matches_old, ChildRef, ChildSlot,
    TreeArena,
    lemma_child_ok, lemma_child_with_name_insert, lemma_dir_at_in_range,
    lemma_dir_at_insert_child, lemma_dir_at_prefix, lemma_dir_at_push_node, lemma_fresh_refs,
    lemma_slots_insert, lemma_slots_push_node, lemma_wf_grow, lemma_wf_insert_child,
    lemma_wf_push_node};

verus! {

/// The kind-specific part of a pending record.  A directory's layout
/// numbers are deferred: the record names its tree node, and finalize reads
/// the node's children once the tree is frozen.
#[derive(Clone, Debug, PartialEq)]
pub enum PendingPayload {
    File { content: ContentAddress, size: u64 },
    Dir { node: usize },
    Link { target: Vec<u8> },
}

/// One entry as recorded at ingestion time, in arrival order.  Its parent
/// index is deferred too: parentage lives in the tree until finalize.
#[derive(Clone, Debug, PartialEq)]
pub struct PendingRecord {
    pub name: Vec<u8>,
    pub attrs: Attrs,
    pub payload: PendingPayload,
}

/// A path of raw-byte name components, as a mathematical value.
pub open spec fn path_view(path: Seq<Vec<u8>>) -> Seq<Seq<u8>> {
    Seq::new(path.len(), |i: int| path[i]@)
}

/// The number of leading path components that resolve to directories
/// already present in the tree.
pub open spec fn present_dirs(t: TreeArena, path: Seq<Seq<u8>>) -> int
    decreases path.len(),
{
    if path.len() == 0 {
        0
    } else {
        let l = present_dirs(t, path.drop_last());
        if l == path.len() - 1 && t.dir_at(path) is Some {
            path.len() as int
        } else {
            l
        }
    }
}

/// What `present_dirs` means: every prefix up to it resolves to a
/// directory, and no longer prefix does.
pub proof fn lemma_present_dirs(t: TreeArena, path: Seq<Seq<u8>>)
    ensures
        0 <= present_dirs(t, path) <= path.len(),
        forall|k: int| 0 <= k <= present_dirs(t, path) ==> t.dir_at(#[trigger] path.take(k)) is Some,
        forall|k: int|
            present_dirs(t, path) < k <= path.len() ==> t.dir_at(#[trigger] path.take(k)) is None,
    decreases path.len(),
{
    let pd = present_dirs(t, path);
    if path.len() == 0 {
        assert(path.take(0) =~= path);
    } else {
        lemma_present_dirs(t, path.drop_last());
        let pl = present_dirs(t, path.drop_last());
        assert(forall|k: int| 0 <= k <= path.len() - 1 ==> path.drop_last().take(k) =~= path.take(k));
        assert(path.take(path.len() as int) =~= path);
        if pl == path.len() - 1 && t.dir_at(path) is Some {
            assert(forall|k: int| 0 <= k <= pd - 1 ==> t.dir_at(#[trigger] path.take(k)) is Some);
        } else if pl == path.len() - 1 {
            assert(t.dir_at(path) is None);
        }
    }
}

/// Whether adding an entry of the given kind under this path is refused:
/// some component of the path is already taken by a file or link, or the
/// full path is already taken and the entry is not a directory.
pub open spec fn blocked_at(t: TreeArena, path: Seq<Seq<u8>>, kind_is_dir: bool, i: int) -> bool {
    &&& 0 <= i < path.len()
    &&& match t.dir_at(path.take(i)) {
        Some(n) => 0 <= n < t.nodes@.len() && match child_with_name(
            t.nodes@[n].children@,
            path[i],
        ) {
            Some(ChildRef::Leaf { record }) => true,
            Some(ChildRef::Dir { node }) => i == path.len() - 1 && !kind_is_dir,
            None => false,
        },
        None => false,
    }
}

/// The whole refusal condition for a path.
pub open spec fn blocked(t: TreeArena, path: Seq<Seq<u8>>, kind_is_dir: bool) -> bool {
    exists|i: int| blocked_at(t, path, kind_is_dir, i)
}

/// When a path resolves to a directory, every step along it is a directory
/// edge from an in-range node.
proof fn lemma_step_child_is_dir(t: TreeArena, pv: Seq<Seq<u8>>, i: int, n_records: int)
    requires
        t.wf(n_records),
        0 <= i < pv.len(),
        t.dir_at(pv.take(i + 1)) is Some,
    ensures
        match t.dir_at(pv.take(i)) {
            Some(n) => 0 <= n < t.nodes@.len() && (child_with_name(t.nodes@[n].children@, pv[i])
                matches Some(ChildRef::Dir { .. })),
            None => false,
        },
{
    assert(pv.take(i + 1).drop_last() =~= pv.take(i));
    assert(pv.take(i + 1).last() == pv[i]);
    lemma_dir_at_in_range(t, pv.take(i), n_records);
}

/// A fully resolved directory path never blocks a directory add, and
/// blocks a non-directory add exactly at its last component.
proof fn lemma_found_classification(t: TreeArena, pv: Seq<Seq<u8>>, n_records: int)
    requires
        t.wf(n_records),
        pv.len() >= 1,
        t.dir_at(pv) is Some,
    ensures
        !blocked(t, pv, true),
        blocked(t, pv, false),
{
    assert(pv.take(pv.len() as int) =~= pv);
    assert forall|i: int| !blocked_at(t, pv, true, i) by {
        if 0 <= i < pv.len() {
            lemma_dir_at_prefix(t, pv, i + 1);
            lemma_step_child_is_dir(t, pv, i, n_records);
        }
    }
    lemma_step_child_is_dir(t, pv, pv.len() - 1, n_records);
    assert(blocked_at(t, pv, false, pv.len() - 1));
}

/// A walk that stopped on a missing component means nothing blocks the
/// add, whatever its kind, and says how many components were present.
proof fn lemma_missing_classification(
    t: TreeArena,
    pv: Seq<Seq<u8>>,
    n_records: int,
    node: int,
    depth: int,
)
    requires
        t.wf(n_records),
        pv.len() >= 1,
        0 <= depth < pv.len(),
        t.dir_at(pv.take(depth)) == Some(node),
        0 <= node < t.nodes@.len(),
        child_with_name(t.nodes@[node].children@, pv[depth]) is None,
    ensures
        !blocked(t, pv, true),
        !blocked(t, pv, false),
        present_dirs(t, pv) == depth,
        t.dir_at(pv) is None,
{
    lemma_present_dirs(t, pv);
    let pd = present_dirs(t, pv);
    assert(pv.take(depth + 1).drop_last() =~= pv.take(depth));
    assert(pv.take(depth + 1).last() == pv[depth]);
    assert(t.dir_at(pv.take(depth + 1)) is None);
    assert(pd == depth) by {
        if pd < depth {
            assert(t.dir_at(pv.take(depth)) is None);
        }
        if pd > depth {
            assert(t.dir_at(pv.take(depth + 1)) is Some);
        }
    }
    assert(pv.take(pv.len() as int) =~= pv);
    assert(t.dir_at(pv) is None);
    assert forall|i: int| !blocked_at(t, pv, true, i) && !blocked_at(t, pv, false, i) by {
        if 0 <= i < pv.len() {
            if i < depth {
                lemma_dir_at_prefix(t, pv.take(depth), i + 1);
                assert(pv.take(depth).take(i + 1) =~= pv.take(i + 1));
                lemma_step_child_is_dir(t, pv, i, n_records);
            } else if i > depth {
                assert(t.dir_at(pv.take(i)) is None);
            }
        }
    }
}

/// How far a walk along a path got before it had to stop.
#[derive(Clone, Copy, Debug, PartialEq, Eq, Structural)]
pub enum WalkOutcome {
    /// Every component resolved to an existing directory.
    Found { node: usize },
    /// The components up to `depth` resolved to directories; the one at
    /// `depth` is not present under the directory `node`.
    Missing { node: usize, depth: usize },
    /// The component at `depth` is already taken by a file or a link.
    LeafHit { depth: usize },
}

/// Every leaf slot of the tree names a file or link record, never a
/// directory record.
pub open spec fn leaf_slots_ok(t: TreeArena, records: Seq<PendingRecord>) -> bool {
    forall|k: int, i: int|
        0 <= k < t.nodes@.len() && 0 <= i < t.nodes@[k].children@.len()
            ==> (match (#[trigger] t.nodes@[k].children@[i]).child {
            ChildRef::Leaf { record } => record < records.len() && !(records[record as int].payload
                is Dir),
            _ => true,
        })
}

/// The full tie-off between a tree and its record table: children in
/// strict name order, every non-root node and its directory record naming
/// each other, every leaf slot naming a file or link record, and no two
/// slots naming the same record or node.
pub open spec fn tied_off(t: TreeArena, records: Seq<PendingRecord>) -> bool {
    &&& t.wf(records.len() as int)
    &&& forall|k: int|
        0 <= k < t.nodes@.len() ==> children_sorted((#[trigger] t.nodes@[k]).children@)
    &&& forall|k: int|
        1 <= k < t.nodes@.len() ==> (match (#[trigger] t.nodes@[k]).record {
            Some(r) => r < records.len() && records[r as int].payload == (PendingPayload::Dir {
                node: k as usize,
            }),
            None => false,
        })
    &&& forall|r: int|
        0 <= r < records.len() ==> (match (#[trigger] records[r]).payload {
            PendingPayload::Dir { node } => 1 <= node < t.nodes@.len() && t.nodes@[node
                as int].record == Some(r as usize),
            _ => true,
        })
    &&& leaf_slots_ok(t, records)
    &&& leaf_refs_unique(t)
    &&& dir_refs_unique(t)
    &&& forall|r: int|
        0 <= r < records.len() && !((#[trigger] records[r]).payload is Dir) ==> leaf_covered(t, r)
    &&& forall|m: int| 1 <= m < t.nodes@.len() ==> dir_covered(t, m)
}

/// One ingestion step keeps the tie-off: one record is appended, for a
/// directory one childless node naming it is appended too, and one fresh
/// slot naming the record or node is inserted at its ordered position.
#[verifier::rlimit(80)]
proof fn lemma_tied_off_step(
    t_a: TreeArena,
    t_mid: TreeArena,
    t_new: TreeArena,
    recs_a: Seq<PendingRecord>,
    rec: PendingRecord,
    cur: int,
    pos: int,
    slot: ChildSlot,
)
    requires
        tied_off(t_a, recs_a),
        recs_a.len() < usize::MAX,
        0 <= cur < t_a.nodes@.len(),
        match slot.child {
            ChildRef::Leaf { record } => record == recs_a.len() && !(rec.payload is Dir) && t_mid
                == t_a,
            ChildRef::Dir { node } => node == t_a.nodes@.len() && rec.payload == (
            PendingPayload::Dir { node: t_a.nodes@.len() as usize }) && t_mid.nodes@.len()
                == t_a.nodes@.len() + 1 && (forall|k: int|
                0 <= k < t_a.nodes@.len() ==> t_mid.nodes@[k] == t_a.nodes@[k])
                && t_mid.nodes@[t_a.nodes@.len() as int].record == Some(recs_a.len() as usize)
                && t_mid.nodes@[t_a.nodes@.len() as int].children@.len() == 0,
        },
        t_new.nodes@.len() == t_mid.nodes@.len(),
        forall|k: int|
            0 <= k < t_mid.nodes@.len() && k != cur ==> t_new.nodes@[k] == t_mid.nodes@[k],
        t_new.nodes@[cur].record == t_mid.nodes@[cur].record,
        0 <= pos <= t_a.nodes@[cur].children@.len(),
        t_mid.nodes@[cur].children@ == t_a.nodes@[cur].children@,
        t_new.nodes@[cur].children@ == t_mid.nodes@[cur].children@.insert(pos, slot),
        child_with_name(t_a.nodes@[cur].children@, slot.name@) is None,
        forall|j: int|
            0 <= j < pos ==> crate::lex::lex_lt(
                (#[trigger] t_a.nodes@[cur].children@[j]).name@,
                slot.name@,
            ),
        pos < t_a.nodes@[cur].children@.len() ==> !crate::lex::lex_lt(
            t_a.nodes@[cur].children@[pos].name@,
            slot.name@,
        ),
        t_new.wf(recs_a.len() + 1 as int),
    ensures
        tied_off(t_new, recs_a.push(rec)),
{
    let n_a = t_a.nodes@.len() as int;
    let cnt = recs_a.len() as int;
    let recs_new = recs_a.push(rec);
    let pushed = slot.child is Dir;
    assert forall|j: int|
        0 <= j < t_a.nodes@[cur].children@.len() implies (
    #[trigger] t_a.nodes@[cur].children@[j]).name@ != slot.name@ by {
        if t_a.nodes@[cur].children@[j].name@ == slot.name@ {
            assert(child_with_name(t_a.nodes@[cur].children@, slot.name@) is Some);
        }
    }
    lemma_fresh_refs(t_a, cnt);
    // slot facts carry from the starting tree to the one the insert sees
    if pushed {
        lemma_slots_push_node(t_a, t_mid);
        assert forall|k: int, i: int|
            0 <= k < t_mid.nodes@.len() && 0 <= i < t_mid.nodes@[k].children@.len() implies (
        #[trigger] t_mid.nodes@[k].children@[i]).child != (ChildRef::Dir {
            node: n_a as usize,
        }) by {
            if k < n_a {
                assert(t_mid.nodes@[k] == t_a.nodes@[k]);
                assert(t_a.nodes@[k].children@[i].child != (ChildRef::Dir { node: n_a as usize }));
            }
        }
        assert(crate::tree::dir_unreferenced(t_mid, n_a));
    } else {
        assert forall|k: int, i: int|
            0 <= k < t_mid.nodes@.len() && 0 <= i < t_mid.nodes@[k].children@.len() implies (
        #[trigger] t_mid.nodes@[k].children@[i]).child != (ChildRef::Leaf {
            record: cnt as usize,
        }) by {
            assert(t_a.nodes@[k].children@[i].child != (ChildRef::Leaf { record: cnt as usize }));
        }
        assert(crate::tree::leaf_unreferenced(t_mid, cnt));
    }
    lemma_slots_insert(t_mid, t_new, cur, pos, slot);
    // every slot of the new tree is the fresh one or an old slot
    assert forall|k: int, i: int|
        0 <= k < t_new.nodes@.len() && 0 <= i < t_new.nodes@[k].children@.len()
            implies (match (#[trigger] t_new.nodes@[k].children@[i]).child {
        ChildRef::Leaf { record } => record < recs_new.len() && !(recs_new[record as int].payload
            is Dir),
        _ => true,
    }) by {
        if k == cur && i == pos {
            assert(t_new.nodes@[k].children@[i] == slot);
        } else {
            assert(slot_matches_old(t_new, t_mid, k, i));
            let i0 = choose|i0: int|
                0 <= i0 < t_mid.nodes@[k].children@.len() && t_new.nodes@[k].children@[i] == (
                #[trigger] t_mid.nodes@[k].children@[i0]);
            if pushed && k == n_a {
                assert(t_mid.nodes@[k].children@.len() == 0);
            } else {
                assert(t_mid.nodes@[k] == t_a.nodes@[k]);
                assert(match t_a.nodes@[k].children@[i0].child {
                    ChildRef::Leaf { record } => record < recs_a.len() && !(recs_a[record
                        as int].payload is Dir),
                    _ => true,
                });
            }
        }
    }
    assert(leaf_slots_ok(t_new, recs_new));
    // node records and directory records keep naming each other
    assert forall|k: int|
        1 <= k < t_new.nodes@.len() implies (match (#[trigger] t_new.nodes@[k]).record {
        Some(r) => r < recs_new.len() && recs_new[r as int].payload == (PendingPayload::Dir {
            node: k as usize,
        }),
        None => false,
    }) by {
        if k < n_a {
            if k != cur {
                assert(t_new.nodes@[k] == t_mid.nodes@[k]);
                assert(t_mid.nodes@[k] == t_a.nodes@[k]);
            } else {
                assert(t_new.nodes@[k].record == t_a.nodes@[k].record);
            }
            assert(match t_a.nodes@[k].record {
                Some(r) => r < recs_a.len() && recs_a[r as int].payload == (PendingPayload::Dir {
                    node: k as usize,
                }),
                None => false,
            });
        } else {
            assert(pushed && k == n_a);
            assert(t_new.nodes@[k].record == Some(cnt as usize));
        }
    }
    assert forall|r: int|
        0 <= r < recs_new.len() implies (match (#[trigger] recs_new[r]).payload {
        PendingPayload::Dir { node } => 1 <= node < t_new.nodes@.len() && t_new.nodes@[node
            as int].record == Some(r as usize),
        _ => true,
    }) by {
        if r < cnt {
            assert(recs_new[r] == recs_a[r]);
            assert(match recs_a[r].payload {
                PendingPayload::Dir { node } => 1 <= node < t_a.nodes@.len() && t_a.nodes@[node
                    as int].record == Some(r as usize),
                _ => true,
            });
            match recs_a[r].payload {
                PendingPayload::Dir { node } => {
                    if node as int != cur {
                        assert(t_new.nodes@[node as int] == t_mid.nodes@[node as int]);
                        assert(t_mid.nodes@[node as int] == t_a.nodes@[node as int]);
                    } else {
                        assert(t_new.nodes@[node as int].record == t_a.nodes@[node
                            as int].record);
                    }
                },
                _ => {},
            }
        } else {
            assert(recs_new[r] == rec);
            if pushed {
                assert(t_new.nodes@[n_a].record == Some(cnt as usize));
            }
        }
    }
    assert forall|r: int|
        0 <= r < recs_new.len() && !((#[trigger] recs_new[r]).payload is Dir) implies leaf_covered(
        t_new,
        r,
    ) by {
        if r < cnt {
            assert(recs_new[r] == recs_a[r]);
            assert(leaf_covered(t_a, r));
            let (k0, i0) = choose|k0: int, i0: int|
                0 <= k0 < t_a.nodes@.len() && 0 <= i0 < t_a.nodes@[k0].children@.len() && (
                #[trigger] t_a.nodes@[k0].children@[i0]).child == (ChildRef::Leaf {
                    record: r as usize,
                });
            assert(crate::tree::old_slot_kept(t_mid, t_new, k0, i0)) by {
                if pushed {
                    assert(crate::tree::old_slot_kept(t_a, t_mid, k0, i0));
                }
            }
            if pushed {
                assert(crate::tree::old_slot_kept(t_a, t_mid, k0, i0));
                let ia = choose|ia: int|
                    0 <= ia < t_mid.nodes@[k0].children@.len() && (
                    #[trigger] t_mid.nodes@[k0].children@[ia]) == t_a.nodes@[k0].children@[i0];
                assert(crate::tree::old_slot_kept(t_mid, t_new, k0, ia));
                let ib = choose|ib: int|
                    0 <= ib < t_new.nodes@[k0].children@.len() && (
                    #[trigger] t_new.nodes@[k0].children@[ib]) == t_mid.nodes@[k0].children@[ia];
                assert(t_new.nodes@[k0].children@[ib].child == (ChildRef::Leaf {
                    record: r as usize,
                }));
            } else {
                let ib = choose|ib: int|
                    0 <= ib < t_new.nodes@[k0].children@.len() && (
                    #[trigger] t_new.nodes@[k0].children@[ib]) == t_mid.nodes@[k0].children@[i0];
                assert(t_new.nodes@[k0].children@[ib].child == (ChildRef::Leaf {
                    record: r as usize,
                }));
            }
        } else {
            assert(recs_new[r] == rec);
            assert(!pushed);
            assert(t_new.nodes@[cur].children@[pos] == slot);
        }
    }
    assert forall|m: int| 1 <= m < t_new.nodes@.len() implies dir_covered(t_new, m) by {
        if m < n_a {
            assert(dir_covered(t_a, m));
            let (k0, i0) = choose|k0: int, i0: int|
                0 <= k0 < t_a.nodes@.len() && 0 <= i0 < t_a.nodes@[k0].children@.len() && (
                #[trigger] t_a.nodes@[k0].children@[i0]).child == (ChildRef::Dir {
                    node: m as usize,
                });
            if pushed {
                assert(crate::tree::old_slot_kept(t_a, t_mid, k0, i0));
                let ia = choose|ia: int|
                    0 <= ia < t_mid.nodes@[k0].children@.len() && (
                    #[trigger] t_mid.nodes@[k0].children@[ia]) == t_a.nodes@[k0].children@[i0];
                assert(crate::tree::old_slot_kept(t_mid, t_new, k0, ia));
                let ib = choose|ib: int|
                    0 <= ib < t_new.nodes@[k0].children@.len() && (
                    #[trigger] t_new.nodes@[k0].children@[ib]) == t_mid.nodes@[k0].children@[ia];
                assert(t_new.nodes@[k0].children@[ib].child == (ChildRef::Dir {
                    node: m as usize,
                }));
            } else {
                assert(crate::tree::old_slot_kept(t_mid, t_new, k0, i0));
                let ib = choose|ib: int|
                    0 <= ib < t_new.nodes@[k0].children@.len() && (
                    #[trigger] t_new.nodes@[k0].children@[ib]) == t_mid.nodes@[k0].children@[i0];
                assert(t_new.nodes@[k0].children@[ib].child == (ChildRef::Dir {
                    node: m as usize,
                }));
            }
        } else {
            assert(pushed && m == n_a);
            assert(t_new.nodes@[cur].children@[pos] == slot);
        }
    }
    assert(tied_off(t_new, recs_new));
}

/// One attach step, proven all at once: inserting the fresh slot keeps
/// the tree well-formed and tied off to the extended record table, keeps
/// the already-resolved path to the parent resolving, and makes the new
/// name resolve to the new child.
proof fn lemma_attach(
    t_a: TreeArena,
    t_mid: TreeArena,
    t_new: TreeArena,
    recs_a: Seq<PendingRecord>,
    rec: PendingRecord,
    cur: int,
    pos: int,
    slot: ChildSlot,
    p: Seq<Seq<u8>>,
)
    requires
        tied_off(t_a, recs_a),
        recs_a.len() < usize::MAX,
        0 <= cur < t_a.nodes@.len(),
        match slot.child {
            ChildRef::Leaf { record } => record == recs_a.len() && !(rec.payload is Dir) && t_mid
                == t_a,
            ChildRef::Dir { node } => node == t_a.nodes@.len() && rec.payload == (
            PendingPayload::Dir { node: t_a.nodes@.len() as usize }) && t_mid.nodes@.len()
                == t_a.nodes@.len() + 1 && (forall|k: int|
                0 <= k < t_a.nodes@.len() ==> t_mid.nodes@[k] == t_a.nodes@[k])
                && t_mid.nodes@[t_a.nodes@.len() as int].record == Some(recs_a.len() as usize)
                && t_mid.nodes@[t_a.nodes@.len() as int].children@.len() == 0,
        },
        t_new.nodes@.len() == t_mid.nodes@.len(),
        forall|k: int|
            0 <= k < t_mid.nodes@.len() && k != cur ==> t_new.nodes@[k] == t_mid.nodes@[k],
        t_new.nodes@[cur].record == t_mid.nodes@[cur].record,
        0 <= pos <= t_a.nodes@[cur].children@.len(),
        t_mid.nodes@[cur].children@ == t_a.nodes@[cur].children@,
        t_new.nodes@[cur].children@ == t_mid.nodes@[cur].children@.insert(pos, slot),
        crate::tree::distinct_names(t_new.nodes@[cur].children@),
        child_with_name(t_a.nodes@[cur].children@, slot.name@) is None,
        forall|j: int|
            0 <= j < pos ==> crate::lex::lex_lt(
                (#[trigger] t_a.nodes@[cur].children@[j]).name@,
                slot.name@,
            ),
        pos < t_a.nodes@[cur].children@.len() ==> !crate::lex::lex_lt(
            t_a.nodes@[cur].children@[pos].name@,
            slot.name@,
        ),
        t_a.dir_at(p) == Some(cur),
    ensures
        t_new.wf(recs_a.len() + 1 as int),
        tied_off(t_new, recs_a.push(rec)),
        t_new.dir_at(p) == Some(cur),
        child_with_name(t_new.nodes@[cur].children@, slot.name@) == Some(slot.child),
{
    let cnt = recs_a.len() as int;
    lemma_wf_grow(t_a, cnt, cnt + 1);
    if slot.child is Dir {
        lemma_wf_push_node(t_a, t_mid, recs_a.len() as usize, cnt + 1);
    }
    assert(t_a.node_ok(cur, cnt));
    lemma_wf_insert_child(t_mid, t_new, cur, pos, slot, cnt + 1);
    lemma_dir_at_push_node(t_a, t_mid, p, cnt + 1);
    lemma_dir_at_insert_child(t_mid, t_new, cur, pos, slot, p);
    lemma_child_with_name_insert(t_mid.nodes@[cur].children@, pos, slot, slot.name@);
    lemma_tied_off_step(t_a, t_mid, t_new, recs_a, rec, cur, pos, slot);
}

/// Whether the slot at `(k, i)` names record `r`: directly for a file or
/// link, or through the directory node whose record `r` is.
pub open spec fn slot_names_record(t: TreeArena, k: int, i: int, r: int) -> bool {
    match t.nodes@[k].children@[i].child {
        ChildRef::Leaf { record } => record == r,
        ChildRef::Dir { node } => node < t.nodes@.len() && t.nodes@[node as int].record == Some(
            r as usize,
        ),
    }
}

/// The record `r` is a direct child of directory node `k` of the tree.
pub open spec fn child_record_of(t: TreeArena, k: int, r: int) -> bool {
    exists|i: int|
        0 <= i < t.nodes@[k].children@.len() && #[trigger] slot_names_record(t, k, i, r)
}

/// Entry `q2` carries parent value `q1 + 1` exactly when the tree holds
/// a child slot under the directory node of record `order[q1]` naming
/// record `order[q2]`.
pub open spec fn parent_col_ok(
    t: TreeArena,
    records: Seq<PendingRecord>,
    entries: Seq<EntryRecord>,
    order: Seq<usize>,
    q1: int,
) -> bool {
    forall|q2: int|
        0 <= q2 < entries.len() ==> (((#[trigger] entries[q2]).parent == q1 + 1) <==> (
        match records[order[q1] as int].payload {
            PendingPayload::Dir { node } => node < t.nodes@.len() && child_record_of(
                t,
                node as int,
                order[q2] as int,
            ),
            _ => false,
        }))
}

/// Every nonzero parent value points one past the position of the
/// entry's actual parent directory in the finalized store.
pub open spec fn parents_match_tree(
    t: TreeArena,
    records: Seq<PendingRecord>,
    entries: Seq<EntryRecord>,
    order: Seq<usize>,
) -> bool {
    forall|q1: int|
        0 <= q1 < entries.len() ==> #[trigger] parent_col_ok(t, records, entries, order, q1)
}

/// An entry has parent 0 exactly when its record sits in a slot of the
/// root node.
pub open spec fn roots_match_tree(
    t: TreeArena,
    entries: Seq<EntryRecord>,
    order: Seq<usize>,
) -> bool {
    forall|q: int|
        0 <= q < entries.len() ==> (((#[trigger] entries[q]).parent == 0) <==> child_record_of(
            t,
            0,
            order[q] as int,
        ))
}

/// Every directory entry's child count equals its tree node's number of
/// children.
pub open spec fn counts_match_tree(
    t: TreeArena,
    records: Seq<PendingRecord>,
    entries: Seq<EntryRecord>,
    order: Seq<usize>,
) -> bool {
    forall|q: int|
        0 <= q < entries.len() ==> (match records[(#[trigger] order[q]) as int].payload {
            PendingPayload::Dir { node } => node < t.nodes@.len() && (entries[q].payload
                matches EntryPayload::Dir { child_count, .. } && child_count == t.nodes@[node
                as int].children@.len()),
            _ => true,
        })
}

/// The finalized store lays out exactly the ingested tree.
pub open spec fn tree_correspondence(
    t: TreeArena,
    records: Seq<PendingRecord>,
    entries: Seq<EntryRecord>,
    order: Seq<usize>,
) -> bool {
    &&& parents_match_tree(t, records, entries, order)
    &&& roots_match_tree(t, entries, order)
    &&& counts_match_tree(t, records, entries, order)
}

/// Decides whether record `rc` is a direct child of node `k`.
fn scan_child_record(t: &TreeArena, k: usize, rc: usize) -> (b: bool)
    requires
        k < t.nodes@.len(),
    ensures
        b == child_record_of(*t, k as int, rc as int),
{
    let slots = &t.nodes[k].children;
    let mut i: usize = 0;
    while i < slots.len()
        invariant
            k < t.nodes@.len(),
            slots@ == t.nodes@[k as int].children@,
            i <= slots@.len(),
            forall|j: int| 0 <= j < i ==> !slot_names_record(*t, k as int, j, rc as int),
        decreases slots.len() - i,
    {
        let hit = match slots[i].child {
            ChildRef::Leaf { record } => record == rc,
            ChildRef::Dir { node } => {
                if node < t.nodes.len() {
                    match t.nodes[node].record {
                        Some(rr) => rr == rc,
                        None => false,
                    }
                } else {
                    false
                }
            },
        };
        if hit {
            proof {
                assert(slot_names_record(*t, k as int, i as int, rc as int));
            }
            return true;
        }
        proof {
            assert(!slot_names_record(*t, k as int, i as int, rc as int));
        }
        i = i + 1;
    }
    false
}

/// Verifies that every parent value follows the tree's edges.
fn check_parents_tree(
    t: &TreeArena,
    records: &Vec<PendingRecord>,
    entries: &Vec<EntryRecord>,
    order: &Vec<usize>,
) -> (b: bool)
    requires
        t.nodes@.len() >= 1,
        order@.len() == entries@.len(),
        forall|q: int| 0 <= q < order@.len() ==> (#[trigger] order@[q]) < records@.len(),
    ensures
        b == parents_match_tree(*t, records@, entries@, order@),
{
    let n = entries.len();
    let mut q1: usize = 0;
    while q1 < n
        invariant
            t.nodes@.len() >= 1,
            n == entries@.len(),
            order@.len() == n,
            forall|q: int| 0 <= q < n ==> (#[trigger] order@[q]) < records@.len(),
            q1 <= n,
            forall|a: int|
                0 <= a < q1 ==> #[trigger] parent_col_ok(*t, records@, entries@, order@, a),
        decreases n - q1,
    {
        let r1 = order[q1];
        let (is_dir_rec, m1) = match &records[r1].payload {
            PendingPayload::Dir { node } => (*node < t.nodes.len(), *node),
            _ => (false, 0),
        };
        let mut q2: usize = 0;
        while q2 < n
            invariant
                t.nodes@.len() >= 1,
                n == entries@.len(),
                order@.len() == n,
                forall|q: int| 0 <= q < n ==> (#[trigger] order@[q]) < records@.len(),
                q1 < n,
                q2 <= n,
                r1 == order@[q1 as int],
                is_dir_rec == (records@[r1 as int].payload matches PendingPayload::Dir { node }
                    && node < t.nodes@.len()),
                is_dir_rec ==> records@[r1 as int].payload == (PendingPayload::Dir { node: m1 }),
                is_dir_rec ==> m1 < t.nodes@.len(),
                forall|b2: int|
                    0 <= b2 < q2 ==> (((#[trigger] entries@[b2]).parent == q1 + 1) <==> (
                    match records@[order@[q1 as int] as int].payload {
                        PendingPayload::Dir { node } => node < t.nodes@.len() && child_record_of(
                            *t,
                            node as int,
                            order@[b2] as int,
                        ),
                        _ => false,
                    })),
            decreases n - q2,
        {
            let lhs = entries[q2].parent == (q1 as u64) + 1;
            let rhs = if is_dir_rec {
                scan_child_record(t, m1, order[q2])
            } else {
                false
            };
            if lhs != rhs {
                proof {
                    if parents_match_tree(*t, records@, entries@, order@) {
                        assert(parent_col_ok(*t, records@, entries@, order@, q1 as int));
                    }
                }
                return false;
            }
            q2 = q2 + 1;
        }
        proof {
            assert(parent_col_ok(*t, records@, entries@, order@, q1 as int));
        }
        q1 = q1 + 1;
    }
    true
}

/// Verifies that parent 0 marks exactly the root's children.
fn check_roots_tree(t: &TreeArena, entries: &Vec<EntryRecord>, order: &Vec<usize>) -> (b: bool)
    requires
        t.nodes@.len() >= 1,
        order@.len() == entries@.len(),
    ensures
        b == roots_match_tree(*t, entries@, order@),
{
    let n = entries.len();
    let mut q: usize = 0;
    while q < n
        invariant
            t.nodes@.len() >= 1,
            n == entries@.len(),
            order@.len() == n,
            q <= n,
            forall|a: int|
                0 <= a < q ==> (((#[trigger] entries@[a]).parent == 0) <==> child_record_of(
                    *t,
                    0,
                    order@[a] as int,
                )),
        decreases n - q,
    {
        let lhs = entries[q].parent == 0;
        let rhs = scan_child_record(t, 0, order[q]);
        if lhs != rhs {
            return false;
        }
        q = q + 1;
    }
    true
}

/// Verifies that every directory entry counts exactly its node's
/// children.
fn check_counts_tree(
    t: &TreeArena,
    records: &Vec<PendingRecord>,
    entries: &Vec<EntryRecord>,
    order: &Vec<usize>,
) -> (b: bool)
    requires
        order@.len() == entries@.len(),
        forall|q: int| 0 <= q < order@.len() ==> (#[trigger] order@[q]) < records@.len(),
    ensures
        b == counts_match_tree(*t, records@, entries@, order@),
{
    let n = entries.len();
    let mut q: usize = 0;
    while q < n
        invariant
            n == entries@.len(),
            order@.len() == n,
            forall|a: int| 0 <= a < n ==> (#[trigger] order@[a]) < records@.len(),
            q <= n,
            forall|a: int|
                0 <= a < q ==> (match records@[(#[trigger] order@[a]) as int].payload {
                    PendingPayload::Dir { node } => node < t.nodes@.len() && (entries@[a].payload
                        matches EntryPayload::Dir { child_count, .. } && child_count
                        == t.nodes@[node as int].children@.len()),
                    _ => true,
                }),
        decreases n - q,
    {
        let ok = match &records[order[q]].payload {
            PendingPayload::Dir { node } => {
                if *node >= t.nodes.len() {
                    false
                } else {
                    match &entries[q].payload {
                        EntryPayload::Dir { child_count, .. } => *child_count
                            == t.nodes[*node].children.len() as u64,
                        _ => false,
                    }
                }
            },
            _ => true,
        };
        if !ok {
            return false;
        }
        q = q + 1;
    }
    true
}

/// The position where a name belongs among children kept in name order:
/// the first slot whose name does not come before it.
fn find_pos(slots: &Vec<ChildSlot>, name: &Vec<u8>) -> (pos: usize)
    ensures
        pos <= slots@.len(),
        forall|j: int| 0 <= j < pos ==> crate::lex::lex_lt((#[trigger] slots@[j]).name@, name@),
        pos < slots@.len() ==> !crate::lex::lex_lt(slots@[pos as int].name@, name@),
{
    let mut i: usize = 0;
    while i < slots.len()
        invariant
            i <= slots@.len(),
            forall|j: int| 0 <= j < i ==> crate::lex::lex_lt((#[trigger] slots@[j]).name@, name@),
        decreases slots.len() - i,
    {
        if !crate::lex::name_lt(&slots[i].name, name) {
            return i;
        }
        i = i + 1;
    }
    i
}

/// The archive builder.
#[derive(Debug)]
pub struct Creator {
    pub concat_mode: ConcatMode,
    pub compression: Compression,
    pub records: Vec<PendingRecord>,
    pub tree: TreeArena,
    pub content: ContentPackPlan,
}

impl Creator {
    /// The builder's internal consistency: the tree is well-formed against
    /// the record table, the content pack holds at most one cluster per
    /// record, and with compression off no cluster is compressed.
    pub open spec fn wf(self) -> bool {
        &&& self.tree.wf(self.records@.len() as int)
        &&& self.content.clusters@.len() <= self.records@.len()
        &&& self.compression is Off ==> forall|i: int|
            0 <= i < self.content.clusters@.len()
                ==> !(#[trigger] self.content.clusters@[i]).compressed
    }

    /// The full tie-off between the tree and the record table, beyond
    /// plain well-formedness: children are kept in strict name order,
    /// every non-root node and its directory record name each other, and
    /// leaf slots name file or link records, each at most once.  `new`
    /// establishes it and `add_entry` preserves it.
    pub open spec fn reachable(self) -> bool {
        &&& self.wf()
        &&& tied_off(self.tree, self.records@)
    }

    /// Walks the tree along the path's components, following directory
    /// edges, and reports how far it got.
    fn walk_dirs(&self, path: &Vec<Vec<u8>>) -> (w: WalkOutcome)
        requires
            self.wf(),
            path@.len() >= 1,
        ensures
            ({
                let pv = path_view(path@);
                let t = self.tree;
                match w {
                    WalkOutcome::Found { node } => {
                        &&& t.dir_at(pv) == Some(node as int)
                        &&& node < t.nodes@.len()
                    },
                    WalkOutcome::Missing { node, depth } => {
                        &&& depth < pv.len()
                        &&& node < t.nodes@.len()
                        &&& t.dir_at(pv.take(depth as int)) == Some(node as int)
                        &&& child_with_name(t.nodes@[node as int].children@, pv[depth as int])
                            is None
                    },
                    WalkOutcome::LeafHit { depth } => {
                        &&& depth < pv.len()
                        &&& match t.dir_at(pv.take(depth as int)) {
                            Some(n) => 0 <= n < t.nodes@.len() && (child_with_name(
                                t.nodes@[n].children@,
                                pv[depth as int],
                            ) matches Some(ChildRef::Leaf { .. })),
                            None => false,
                        }
                    },
                }
            }),
    {
        let ghost pv = path_view(path@);
        let ghost nrec = self.records@.len() as int;
        let m = path.len();
        let mut node: usize = 0;
        let mut k: usize = 0;
        proof {
            assert(pv.take(0) =~= Seq::<Seq<u8>>::empty());
        }
        while k < m
            invariant
                self.wf(),
                pv == path_view(path@),
                nrec == self.records@.len() as int,
                m == path@.len(),
                k <= m,
                node < self.tree.nodes@.len(),
                self.tree.dir_at(pv.take(k as int)) == Some(node as int),
            decreases m - k,
        {
            proof {
                assert(self.tree.node_ok(node as int, nrec));
            }
            let step = self.tree.find_child(node, &path[k]);
            proof {
                lemma_child_ok(self.tree, node as int, pv[k as int], nrec);
                assert(pv.take(k as int + 1).drop_last() =~= pv.take(k as int));
                assert(pv.take(k as int + 1).last() == pv[k as int]);
            }
            match step {
                Some(ChildRef::Dir { node: nn }) => {
                    node = nn;
                    k = k + 1;
                },
                Some(ChildRef::Leaf { record }) => {
                    return WalkOutcome::LeafHit { depth: k };
                },
                None => {
                    return WalkOutcome::Missing { node, depth: k };
                },
            }
        }
        proof {
            assert(pv.take(m as int) =~= pv);
        }
        WalkOutcome::Found { node }
    }

    /// Appends the synthesized ancestors and the entry itself, starting
    /// from the directory `node`, which holds nothing under the path's
    /// component at `depth`.
    #[verifier::rlimit(80)]
    fn extend_path(&mut self, entry: &EntryDesc, node: usize, depth: usize)
        requires
            old(self).reachable(),
            entry.path@.len() >= 1,
            old(self).records@.len() + entry.path@.len() < u32::MAX as usize,
            depth < entry.path@.len(),
            node < old(self).tree.nodes@.len(),
            old(self).tree.dir_at(path_view(entry.path@).take(depth as int)) == Some(node as int),
            child_with_name(
                old(self).tree.nodes@[node as int].children@,
                path_view(entry.path@)[depth as int],
            ) is None,
        ensures
            final(self).reachable(),
            final(self).concat_mode == old(self).concat_mode,
            final(self).compression == old(self).compression,
            entry.kind is Dir ==> final(self).tree.dir_at(path_view(entry.path@)) is Some,
            blocked(final(self).tree, path_view(entry.path@), false),
            ({
                let pv = path_view(entry.path@);
                let oldlen = old(self).records@.len() as int;
                let m = pv.len() as int;
                let k0 = depth as int;
                &&& final(self).records@.len() == oldlen + (m - k0)
                &&& (forall|j: int|
                    0 <= j < oldlen ==> final(self).records@[j] == old(self).records@[j])
                &&& (forall|j: int|
                    k0 <= j < m - 1 ==> {
                        let rec = #[trigger] final(self).records@[oldlen + j - k0];
                        &&& rec.name@ == pv[j]
                        &&& rec.attrs == synthesized_dir_attrs()
                        &&& rec.payload is Dir
                    })
                &&& ({
                    let rec = final(self).records@[oldlen + m - 1 - k0];
                    &&& rec.name@ == pv[m - 1]
                    &&& rec.attrs == entry.attrs
                    &&& (match entry.kind {
                        EntryKind::Dir => rec.payload is Dir,
                        EntryKind::File { size, entropy_millibits: _ } => rec.payload == (
                        PendingPayload::File {
                            content: ContentAddress {
                                pack_id: CONTENT_PACK_ID,
                                content_id: old(self).content.clusters@.len() as u32,
                            },
                            size,
                        }),
                        EntryKind::Link { target } => rec.payload matches PendingPayload::Link {
                            target: tg,
                        } && tg@ == target@,
                    })
                })
                &&& (match entry.kind {
                    EntryKind::File { size, entropy_millibits } => final(self).content.clusters@
                        == old(self).content.clusters@.push(
                        ClusterPlan {
                            size,
                            compressed: spec_should_compress(
                                old(self).compression,
                                entropy_millibits,
                            ),
                        },
                    ),
                    _ => final(self).content.clusters@ == old(self).content.clusters@,
                })
            }),
    {
        let ghost pv = path_view(entry.path@);
        let ghost nrec0 = self.records@.len() as int;
        let m = entry.path.len();
        let mut cur = node;
        let mut t = depth;
        while t < m - 1
            invariant
                m == entry.path@.len(),
                1 <= m,
                pv == path_view(entry.path@),
                pv.len() == m,
                depth <= t <= m - 1,
                nrec0 == old(self).records@.len() as int,
                nrec0 + m < u32::MAX as usize,
                self.reachable(),
                cur < self.tree.nodes@.len(),
                self.tree.dir_at(pv.take(t as int)) == Some(cur as int),
                child_with_name(self.tree.nodes@[cur as int].children@, pv[t as int]) is None,
                self.concat_mode == old(self).concat_mode,
                self.compression == old(self).compression,
                self.content == old(self).content,
                self.records@.len() == nrec0 + (t - depth),
                forall|j: int| 0 <= j < nrec0 ==> self.records@[j] == old(self).records@[j],
                forall|j: int|
                    depth <= j < t ==> {
                        let rec = #[trigger] self.records@[nrec0 + j - depth];
                        &&& rec.name@ == pv[j]
                        &&& rec.attrs == synthesized_dir_attrs()
                        &&& rec.payload is Dir
                    },
            decreases (m - 1) - t,
        {
            let ghost tree_a = self.tree;
            let ghost cnt = self.records@.len() as int;
            let ghost recs_a = self.records@;
            let rec_idx = self.records.len();
            let new_node_id = self.tree.nodes.len();
            let rec_name = entry.path[t].clone();
            proof {
                assert(rec_name@ =~= pv[t as int]);
            }
            self.records.push(
                PendingRecord {
                    name: rec_name,
                    attrs: crate::entry::make_synthesized_dir_attrs(),
                    payload: PendingPayload::Dir { node: new_node_id },
                },
            );
            let got = self.tree.push_node(rec_idx);
            let ghost tree_b = self.tree;
            proof {
                assert(tree_a.node_ok(cur as int, cnt));
                assert(tree_b.nodes@[cur as int] == tree_a.nodes@[cur as int]);
            }
            let pos = find_pos(&self.tree.nodes[cur].children, &entry.path[t]);
            let slot_name = entry.path[t].clone();
            proof {
                assert(slot_name@ =~= pv[t as int]);
            }
            let slot = ChildSlot { name: slot_name, child: ChildRef::Dir { node: got } };
            let ghost slot_g = slot;
            proof {
                assert(tree_b.nodes@[cur as int] == tree_a.nodes@[cur as int]);
                assert(child_with_name(tree_b.nodes@[cur as int].children@, slot_g.name@)
                    is None);
            }
            self.tree.insert_child(cur, pos, slot);
            proof {
                let ghost rec_g = self.records@[cnt];
                assert(recs_a.push(rec_g) =~= self.records@);
                lemma_attach(
                    tree_a,
                    tree_b,
                    self.tree,
                    recs_a,
                    rec_g,
                    cur as int,
                    pos as int,
                    slot_g,
                    pv.take(t as int),
                );
                assert(self.tree.nodes@[got as int] == tree_b.nodes@[got as int]);
                assert(self.tree.nodes@[got as int].children@.len() == 0);
                assert(pv.take(t as int + 1).drop_last() =~= pv.take(t as int));
                assert(pv.take(t as int + 1).last() == pv[t as int]);
                assert(self.tree.dir_at(pv.take(t as int + 1)) == Some(got as int));
            }
            cur = got;
            t = t + 1;
        }
        // The last component: the entry itself.
        let ghost tree_a = self.tree;
        let ghost cnt = self.records@.len() as int;
        let ghost recs_a = self.records@;
        let rec_idx = self.records.len();
        let rec_name = entry.path[t].clone();
        proof {
            assert(rec_name@ =~= pv[t as int]);
        }
        let slot_name = entry.path[t].clone();
        proof {
            assert(slot_name@ =~= pv[t as int]);
        }
        match &entry.kind {
            EntryKind::Dir => {
                let new_node_id = self.tree.nodes.len();
                self.records.push(
                    PendingRecord {
                        name: rec_name,
                        attrs: entry.attrs,
                        payload: PendingPayload::Dir { node: new_node_id },
                    },
                );
                let got = self.tree.push_node(rec_idx);
                let ghost tree_b = self.tree;
                proof {
                    assert(tree_a.node_ok(cur as int, cnt));
                    assert(tree_b.nodes@[cur as int] == tree_a.nodes@[cur as int]);
                }
                let pos = find_pos(&self.tree.nodes[cur].children, &entry.path[t]);
                let slot = ChildSlot { name: slot_name, child: ChildRef::Dir { node: got } };
                let ghost slot_g = slot;
                proof {
                    assert(tree_b.nodes@[cur as int] == tree_a.nodes@[cur as int]);
                    assert(child_with_name(tree_b.nodes@[cur as int].children@, slot_g.name@)
                        is None);
                }
                self.tree.insert_child(cur, pos, slot);
                proof {
                    let ghost rec_g = self.records@[cnt];
                    assert(recs_a.push(rec_g) =~= self.records@);
                    lemma_attach(
                        tree_a,
                        tree_b,
                        self.tree,
                        recs_a,
                        rec_g,
                        cur as int,
                        pos as int,
                        slot_g,
                        pv.take(t as int),
                    );
                    assert(pv.take(t as int + 1).drop_last() =~= pv.take(t as int));
                    assert(pv.take(t as int + 1).last() == pv[t as int]);
                    assert(pv.take(t as int + 1) =~= pv);
                    assert(self.tree.dir_at(pv) is Some);
                    lemma_found_classification(self.tree, pv, cnt + 1);
                }
            },
            EntryKind::File { size, entropy_millibits } => {
                let comp = self.compression;
                let cid = self.content.add_content(*size, *entropy_millibits, &comp);
                self.records.push(
                    PendingRecord {
                        name: rec_name,
                        attrs: entry.attrs,
                        payload: PendingPayload::File {
                            content: ContentAddress {
                                pack_id: CONTENT_PACK_ID,
                                content_id: cid,
                            },
                            size: *size,
                        },
                    },
                );
                let ghost tree_b = self.tree;
                proof {
                    assert(tree_a.node_ok(cur as int, cnt));
                }
                let pos = find_pos(&self.tree.nodes[cur].children, &entry.path[t]);
                let slot = ChildSlot { name: slot_name, child: ChildRef::Leaf { record: rec_idx } };
                let ghost slot_g = slot;
                proof {
                    assert(child_with_name(tree_b.nodes@[cur as int].children@, slot_g.name@)
                        is None);
                }
                self.tree.insert_child(cur, pos, slot);
                proof {
                    let ghost rec_g = self.records@[cnt];
                    assert(recs_a.push(rec_g) =~= self.records@);
                    lemma_attach(
                        tree_a,
                        tree_b,
                        self.tree,
                        recs_a,
                        rec_g,
                        cur as int,
                        pos as int,
                        slot_g,
                        pv.take(t as int),
                    );
                    assert(blocked_at(self.tree, pv, false, t as int));
                }
            },
            EntryKind::Link { target } => {
                let tg = target.clone();
                proof {
                    assert(tg@ =~= target@);
                }
                self.records.push(
                    PendingRecord {
                        name: rec_name,
                        attrs: entry.attrs,
                        payload: PendingPayload::Link { target: tg },
                    },
                );
                let ghost tree_b = self.tree;
                proof {
                    assert(tree_a.node_ok(cur as int, cnt));
                }
                let pos = find_pos(&self.tree.nodes[cur].children, &entry.path[t]);
                let slot = ChildSlot { name: slot_name, child: ChildRef::Leaf { record: rec_idx } };
                let ghost slot_g = slot;
                proof {
                    assert(child_with_name(tree_b.nodes@[cur as int].children@, slot_g.name@)
                        is None);
                }
                self.tree.insert_child(cur, pos, slot);
                proof {
                    let ghost rec_g = self.records@[cnt];
                    assert(recs_a.push(rec_g) =~= self.records@);
                    lemma_attach(
                        tree_a,
                        tree_b,
                        self.tree,
                        recs_a,
                        rec_g,
                        cur as int,
                        pos as int,
                        slot_g,
                        pv.take(t as int),
                    );
                    assert(blocked_at(self.tree, pv, false, t as int));
                }
            },
        }
    }

    /// Adds one entry under its path.  Missing ancestor directories are
    /// synthesized with default attributes.  Re-adding an existing
    /// directory is a no-op that keeps the first addition's attributes;
    /// adding any other entry under a name already taken, or over a
    /// component already taken by a file or link, is refused.  A refused
    /// add leaves the builder untouched.
    pub fn add_entry(&mut self, entry: &EntryDesc) -> (r: Result<(), ArxError>)
        requires
            old(self).reachable(),
            entry.path@.len() >= 1,
            old(self).records@.len() + entry.path@.len() < u32::MAX as usize,
        ensures
            final(self).reachable(),
            final(self).concat_mode == old(self).concat_mode,
            final(self).compression == old(self).compression,
            ({
                let pv = path_view(entry.path@);
                let is_dir = entry.kind is Dir;
                let noop = is_dir && old(self).tree.dir_at(pv) is Some;
                let k0 = present_dirs(old(self).tree, pv);
                let oldlen = old(self).records@.len() as int;
                let m = pv.len() as int;
                &&& (r is Err <==> blocked(old(self).tree, pv, is_dir))
                &&& (r is Err ==> *final(self) == *old(self))
                &&& (r matches Err(e) ==> e is DuplicateName)
                &&& (noop ==> r is Ok && *final(self) == *old(self))
                &&& ((r is Ok && is_dir) ==> final(self).tree.dir_at(pv) is Some)
                &&& (r is Ok ==> blocked(final(self).tree, pv, false))
                &&& ((r is Ok && !noop) ==> {
                    &&& 0 <= k0 <= m - 1
                    &&& final(self).records@.len() == oldlen + (m - k0)
                    &&& (forall|j: int|
                        0 <= j < oldlen ==> final(self).records@[j] == old(self).records@[j])
                    &&& (forall|j: int|
                        k0 <= j < m - 1 ==> {
                            let rec = #[trigger] final(self).records@[oldlen + j - k0];
                            &&& rec.name@ == pv[j]
                            &&& rec.attrs == synthesized_dir_attrs()
                            &&& rec.payload is Dir
                        })
                    &&& ({
                        let rec = final(self).records@[oldlen + m - 1 - k0];
                        &&& rec.name@ == pv[m - 1]
                        &&& rec.attrs == entry.attrs
                        &&& (match entry.kind {
                            EntryKind::Dir => rec.payload is Dir,
                            EntryKind::File { size, entropy_millibits: _ } => rec.payload == (
                            PendingPayload::File {
                                content: ContentAddress {
                                    pack_id: CONTENT_PACK_ID,
                                    content_id: old(self).content.clusters@.len() as u32,
                                },
                                size,
                            }),
                            EntryKind::Link { target } => rec.payload
                                matches PendingPayload::Link { target: tg } && tg@ == target@,
                        })
                    })
                    &&& (match entry.kind {
                        EntryKind::File { size, entropy_millibits } => final(self).content.clusters@
                            == old(self).content.clusters@.push(
                            ClusterPlan {
                                size,
                                compressed: spec_should_compress(
                                    old(self).compression,
                                    entropy_millibits,
                                ),
                            },
                        ),
                        _ => final(self).content.clusters@ == old(self).content.clusters@,
                    })
                })
            }),
    {
        let ghost pv = path_view(entry.path@);
        let ghost nrec0 = self.records@.len() as int;
        let m = entry.path.len();
        let is_dir = match &entry.kind {
            EntryKind::Dir => true,
            _ => false,
        };
        let w = self.walk_dirs(&entry.path);
        match w {
            WalkOutcome::Found { node: _ } => {
                proof {
                    lemma_found_classification(self.tree, pv, nrec0);
                }
                if is_dir {
                    Ok(())
                } else {
                    Err(ArxError::DuplicateName { name: entry.path[m - 1].clone() })
                }
            },
            WalkOutcome::LeafHit { depth } => {
                proof {
                    assert(blocked_at(self.tree, pv, entry.kind is Dir, depth as int));
                    assert(pv.take(depth as int + 1).drop_last() =~= pv.take(depth as int));
                    assert(pv.take(depth as int + 1).last() == pv[depth as int]);
                    assert(self.tree.dir_at(pv.take(depth as int + 1)) is None);
                    if self.tree.dir_at(pv) is Some {
                        lemma_dir_at_prefix(self.tree, pv, depth as int + 1);
                    }
                }
                Err(ArxError::DuplicateName { name: entry.path[depth].clone() })
            },
            WalkOutcome::Missing { node, depth } => {
                proof {
                    lemma_missing_classification(
                        self.tree,
                        pv,
                        nrec0,
                        node as int,
                        depth as int,
                    );
                }
                self.extend_path(entry, node, depth);
                Ok(())
            },
        }
    }

    /// Closes the builder: resolves every deferred index over the frozen
    /// tree, lays the entry store out sorted by `(parent, name)`, verifies
    /// the layout invariants, and hands back the complete plan of the
    /// archive — entries, indexes, output files and content clusters.
    /// A builder whose tree and records do not tie off is refused with a
    /// schema violation; every plan this function returns satisfies the
    /// store's invariants and lays out exactly the tree that was
    /// ingested: each entry's parent value is one past the final position
    /// of its parent directory's record (0 under the root), and each
    /// directory entry counts exactly its node's children.
    pub fn finalize(self, outfile_name: &Vec<u8>) -> (r: Result<ArchivePlan, ArxError>)
        requires
            outfile_name@.len() + 5 <= usize::MAX,
        ensures
            (match r {
                Ok(plan) => {
                    &&& strictly_sorted(plan.entries@)
                    &&& parents_valid(plan.entries@)
                    &&& sibling_contiguous(plan.entries@)
                    &&& plan.entries@.len() == self.records@.len()
                    &&& plan.order@.len() == self.records@.len()
                    &&& (forall|q: int|
                        0 <= q < plan.order@.len() ==> (#[trigger] plan.order@[q])
                            < self.records@.len())
                    &&& (forall|q1: int, q2: int|
                        0 <= q1 < q2 < plan.order@.len() ==> plan.order@[q1] != plan.order@[q2])
                    &&& (forall|rr: int|
                        0 <= rr < self.records@.len() ==> #[trigger] order_covers(
                            plan.order@,
                            rr,
                        ))
                    &&& (forall|q: int|
                        0 <= q < plan.entries@.len() ==> record_matches(
                            self.records@[plan.order@[q] as int],
                            #[trigger] plan.entries@[q],
                        ))
                    &&& plan.indexes@.len() == 2
                    &&& plan.indexes@[0] == (IndexInfo {
                        name: IndexName::Entries,
                        entry_count: self.records@.len() as u32,
                        first_entry: 0,
                    })
                    &&& plan.indexes@[1].name == IndexName::Root
                    &&& plan.indexes@[1].first_entry == 0
                    &&& (forall|j: int|
                        0 <= j < plan.entries@.len() ==> (((#[trigger] plan.entries@[j]).parent
                            == 0) <==> j < plan.indexes@[1].entry_count))
                    &&& tree_correspondence(self.tree, self.records@, plan.entries@, plan.order@)
                    &&& outputs_ok(self.concat_mode, outfile_name@, plan.outputs@)
                    &&& plan.clusters@ == self.content.clusters@
                    &&& (self.wf() && self.compression is Off ==> forall|i: int|
                        0 <= i < plan.clusters@.len() ==> !(#[trigger] plan.clusters@[i]).compressed)
                },
                Err(e) => e == ArxError::BrokenLayout,
            }),
            self.wf() && self.records@.len() == 0 ==> r is Ok,
    {
        if self.records.len() > u32::MAX as usize {
            return Err(ArxError::BrokenLayout);
        }
        if self.tree.nodes.len() == 0 {
            return Err(ArxError::BrokenLayout);
        }
        let n = self.records.len();
        if n == 0 {
            proof {
                if self.wf() {
                    crate::tree::lemma_no_records_no_children(self.tree);
                }
            }
            if self.tree.nodes[0].children.len() == 0 {
                let outputs = plan_outputs(&self.concat_mode, outfile_name);
                let mut indexes: Vec<IndexInfo> = Vec::new();
                indexes.push(IndexInfo { name: IndexName::Entries, entry_count: 0, first_entry: 0 });
                indexes.push(IndexInfo { name: IndexName::Root, entry_count: 0, first_entry: 0 });
                return Ok(ArchivePlan {
                    entries: Vec::new(),
                    order: Vec::new(),
                    indexes,
                    outputs,
                    clusters: self.content.clusters,
                });
            } else {
                return Err(ArxError::BrokenLayout);
            }
        }
        let lay = layout_entries(&self.records, &self.tree);
        let (out, order) = match lay {
            Ok(p) => p,
            Err(e) => {
                return Err(e);
            },
        };
        if !check_sorted(&out) {
            return Err(ArxError::BrokenLayout);
        }
        if !check_parents(&out) {
            return Err(ArxError::BrokenLayout);
        }
        if !check_ranges(&out) {
            return Err(ArxError::BrokenLayout);
        }
        if !check_parents_tree(&self.tree, &self.records, &out, &order) {
            return Err(ArxError::BrokenLayout);
        }
        if !check_roots_tree(&self.tree, &out, &order) {
            return Err(ArxError::BrokenLayout);
        }
        if !check_counts_tree(&self.tree, &self.records, &out, &order) {
            return Err(ArxError::BrokenLayout);
        }
        let n2 = out.len();
        let mut rc: usize = 0;
        while rc < n2 && out[rc].parent == 0
            invariant
                rc <= n2,
                n2 == out@.len(),
                forall|j: int| 0 <= j < rc ==> (#[trigger] out@[j]).parent == 0,
            decreases n2 - rc,
        {
            rc = rc + 1;
        }
        let mut j2: usize = rc;
        while j2 < n2
            invariant
                rc <= j2 <= n2,
                n2 == out@.len(),
                self.records@.len() >= 1,
                forall|j: int| rc <= j < j2 ==> (#[trigger] out@[j]).parent != 0,
            decreases n2 - j2,
        {
            if out[j2].parent == 0 {
                return Err(ArxError::BrokenLayout);
            }
            j2 = j2 + 1;
        }
        let mut indexes: Vec<IndexInfo> = Vec::new();
        indexes.push(
            IndexInfo { name: IndexName::Entries, entry_count: n as u32, first_entry: 0 },
        );
        indexes.push(IndexInfo { name: IndexName::Root, entry_count: rc as u32, first_entry: 0 });
        let outputs = plan_outputs(&self.concat_mode, outfile_name);
        Ok(ArchivePlan { entries: out, order, indexes, outputs, clusters: self.content.clusters })
    }

    /// A fresh builder for the given configuration: no entries, no content.
    pub fn new(concat_mode: ConcatMode, compression: Compression) -> (r: Creator)
        ensures
            r.wf(),
            r.reachable(),
            r.concat_mode == concat_mode,
            r.compression == compression,
            r.records@.len() == 0,
            r.content.clusters@.len() == 0,
            r.tree.nodes@.len() == 1,
            r.tree.nodes@[0].children@.len() == 0,
    {
        Creator {
            concat_mode,
            compression,
            records: Vec::new(),
            tree: TreeArena::new(),
            content: ContentPackPlan::new(),
        }
    }
}

/// Lays the records out block by block: pops each directory in layout
/// order and emits its children in name order, resolving every parent
/// value and child count; a directory's `first_child` is patched once the
/// start of its block is known.  A tree whose references do not tie off
/// one-to-one with the records is refused: its layout invariants could
/// not be guaranteed.
fn layout_entries(records: &Vec<PendingRecord>, tree: &TreeArena) -> (r: Result<
    (Vec<EntryRecord>, Vec<usize>),
    ArxError,
>)
    requires
        tree.nodes@.len() >= 1,
        records@.len() <= u32::MAX as usize,
    ensures
        match r {
            Ok(p) => {
                &&& p.0@.len() == records@.len()
                &&& p.1@.len() == records@.len()
                &&& (forall|q: int| 0 <= q < p.1@.len() ==> (#[trigger] p.1@[q]) < records@.len())
                &&& (forall|q1: int, q2: int|
                    0 <= q1 < q2 < p.1@.len() ==> p.1@[q1] != p.1@[q2])
                &&& (forall|rr: int|
                    0 <= rr < records@.len() ==> #[trigger] order_covers(p.1@, rr))
                &&& (forall|q: int|
                    0 <= q < p.0@.len() ==> record_matches(
                        records@[p.1@[q] as int],
                        #[trigger] p.0@[q],
                    ))
            },
            Err(e) => e == ArxError::BrokenLayout,
        },
{
    let n = records.len();
    let mut out: Vec<EntryRecord> = Vec::new();
    let mut order: Vec<usize> = Vec::new();
    let mut emitted: Vec<bool> = vec![false; n];
    let mut dir_pos: Vec<usize> = vec![0; tree.nodes.len()];
    let mut queue: Vec<(usize, u64)> = Vec::new();
    queue.push((0, 0));
    let mut qhead: usize = 0;
    proof {
        assert(forall|i: int| 0 <= i < n ==> !emitted@[i]);
    }
    while qhead < queue.len()
        invariant
            n == records@.len(),
            n <= u32::MAX as usize,
            tree.nodes@.len() >= 1,
            emitted@.len() == n,
            dir_pos@.len() == tree.nodes@.len(),
            out@.len() == order@.len(),
            qhead <= queue@.len(),
            queue@.len() <= n + 1,
            forall|q: int| 0 <= q < order@.len() ==> (#[trigger] order@[q]) < n,
            forall|q: int| 0 <= q < order@.len() ==> emitted@[#[trigger] order@[q] as int],
            forall|q1: int, q2: int| 0 <= q1 < q2 < order@.len() ==> order@[q1] != order@[q2],
            forall|rr: int| 0 <= rr < n && emitted@[rr] ==> #[trigger] order_covers(order@, rr),
            forall|q: int|
                0 <= q < out@.len() ==> record_matches(
                    records@[order@[q] as int],
                    #[trigger] out@[q],
                ),
            forall|v: int|
                0 <= v < dir_pos@.len() && (#[trigger] dir_pos@[v]) != 0 ==> dir_pos@[v] - 1
                    < out@.len() && out@[dir_pos@[v] - 1].payload is Dir,
        decreases n + 1 - qhead,
    {
        let (node, pval) = queue[qhead];
        qhead = qhead + 1;
        if node >= tree.nodes.len() {
            return Err(ArxError::BrokenLayout);
        }
        let slots_len = tree.nodes[node].children.len();
        if node != 0 {
            let dp = dir_pos[node];
            if dp == 0 {
                return Err(ArxError::BrokenLayout);
            }
            let pm1 = dp - 1;
            let fc: u64 = if slots_len == 0 {
                0
            } else {
                out.len() as u64
            };
            let cc = match &out[pm1].payload {
                EntryPayload::Dir { child_count, .. } => *child_count,
                _ => {
                    return Err(ArxError::BrokenLayout);
                },
            };
            out[pm1].payload = EntryPayload::Dir { first_child: fc, child_count: cc };
            proof {
                assert(record_matches(records@[order@[pm1 as int] as int], out@[pm1 as int]));
            }
        }
        let mut si: usize = 0;
        while si < slots_len
            invariant
                n == records@.len(),
                n <= u32::MAX as usize,
                tree.nodes@.len() >= 1,
                node < tree.nodes@.len(),
                slots_len == tree.nodes@[node as int].children@.len(),
                si <= slots_len,
                emitted@.len() == n,
                dir_pos@.len() == tree.nodes@.len(),
                out@.len() == order@.len(),
                qhead <= queue@.len(),
                queue@.len() <= n + 1,
                forall|q: int| 0 <= q < order@.len() ==> (#[trigger] order@[q]) < n,
                forall|q: int| 0 <= q < order@.len() ==> emitted@[#[trigger] order@[q] as int],
                forall|q1: int, q2: int|
                    0 <= q1 < q2 < order@.len() ==> order@[q1] != order@[q2],
                forall|rr: int|
                    0 <= rr < n && emitted@[rr] ==> #[trigger] order_covers(order@, rr),
                forall|q: int|
                    0 <= q < out@.len() ==> record_matches(
                        records@[order@[q] as int],
                        #[trigger] out@[q],
                    ),
                forall|v: int|
                    0 <= v < dir_pos@.len() && (#[trigger] dir_pos@[v]) != 0 ==> dir_pos@[v] - 1
                        < out@.len() && out@[dir_pos@[v] - 1].payload is Dir,
            decreases slots_len - si,
        {
            let slot_child = tree.nodes[node].children[si].child;
            let ghost emitted_old = emitted@;
            let ghost order_old = order@;
            match slot_child {
                ChildRef::Leaf { record } => {
                    if record >= n {
                        return Err(ArxError::BrokenLayout);
                    }
                    if emitted[record] {
                        return Err(ArxError::BrokenLayout);
                    }
                    let pr = &records[record];
                    let payload = match &pr.payload {
                        PendingPayload::File { content, size } => EntryPayload::File {
                            content: *content,
                            size: *size,
                        },
                        PendingPayload::Link { target } => EntryPayload::Link {
                            target: target.clone(),
                        },
                        PendingPayload::Dir { .. } => {
                            return Err(ArxError::BrokenLayout);
                        },
                    };
                    emitted[record] = true;
                    out.push(
                        EntryRecord { name: pr.name.clone(), parent: pval, attrs: pr.attrs, payload },
                    );
                    order.push(record);
                    proof {
                        assert(out@[out@.len() - 1].name@ =~= records@[record as int].name@);
                        assert forall|q: int| 0 <= q < order@.len() - 1 implies (#[trigger] order@[q])
                            != order@[order@.len() - 1] by {
                            assert(emitted_old[order@[q] as int]);
                        }
                        assert(order_covers(order@, record as int)) by {
                            assert((#[trigger] order@[order@.len() - 1]) as int == record as int);
                        }
                        assert forall|rr2: int| 0 <= rr2 < n && emitted@[rr2]
                            implies #[trigger] order_covers(order@, rr2) by {
                            if rr2 != record as int {
                                assert(emitted_old[rr2]);
                                assert(order_covers(order_old, rr2));
                                let q = choose|q: int|
                                    0 <= q < order_old.len() && (#[trigger] order_old[q]) as int
                                        == rr2;
                                assert((#[trigger] order@[q]) as int == rr2);
                            }
                        }
                    }
                },
                ChildRef::Dir { node: child_node } => {
                    if child_node >= tree.nodes.len() {
                        return Err(ArxError::BrokenLayout);
                    }
                    let record = match tree.nodes[child_node].record {
                        Some(rr) => rr,
                        None => {
                            return Err(ArxError::BrokenLayout);
                        },
                    };
                    if record >= n {
                        return Err(ArxError::BrokenLayout);
                    }
                    if emitted[record] {
                        return Err(ArxError::BrokenLayout);
                    }
                    let pr = &records[record];
                    match &pr.payload {
                        PendingPayload::Dir { .. } => {},
                        _ => {
                            return Err(ArxError::BrokenLayout);
                        },
                    }
                    let cc = tree.nodes[child_node].children.len();
                    let pos_in_out = out.len();
                    if pos_in_out >= n {
                        return Err(ArxError::BrokenLayout);
                    }
                    emitted[record] = true;
                    out.push(
                        EntryRecord {
                            name: pr.name.clone(),
                            parent: pval,
                            attrs: pr.attrs,
                            payload: EntryPayload::Dir { first_child: 0, child_count: cc as u64 },
                        },
                    );
                    order.push(record);
                    proof {
                        assert(out@[out@.len() - 1].name@ =~= records@[record as int].name@);
                        assert forall|q: int| 0 <= q < order@.len() - 1 implies (#[trigger] order@[q])
                            != order@[order@.len() - 1] by {
                            assert(emitted_old[order@[q] as int]);
                        }
                        assert(order_covers(order@, record as int)) by {
                            assert((#[trigger] order@[order@.len() - 1]) as int == record as int);
                        }
                        assert forall|rr2: int| 0 <= rr2 < n && emitted@[rr2]
                            implies #[trigger] order_covers(order@, rr2) by {
                            if rr2 != record as int {
                                assert(emitted_old[rr2]);
                                assert(order_covers(order_old, rr2));
                                let q = choose|q: int|
                                    0 <= q < order_old.len() && (#[trigger] order_old[q]) as int
                                        == rr2;
                                assert((#[trigger] order@[q]) as int == rr2);
                            }
                        }
                    }
                    if dir_pos[child_node] != 0 {
                        return Err(ArxError::BrokenLayout);
                    }
                    dir_pos[child_node] = pos_in_out + 1;
                    if queue.len() > n {
                        return Err(ArxError::BrokenLayout);
                    }
                    queue.push((child_node, (pos_in_out as u64) + 1));
                },
            }
            si = si + 1;
        }
    }
    if out.len() != n {
        return Err(ArxError::BrokenLayout);
    }
    let mut rr: usize = 0;
    while rr < n
        invariant
            n == records@.len(),
            emitted@.len() == n,
            rr <= n,
            forall|r2: int| 0 <= r2 < rr ==> emitted@[r2],
        decreases n - rr,
    {
        if !emitted[rr] {
            return Err(ArxError::BrokenLayout);
        }
        rr = rr + 1;
    }
    Ok((out, order))
}

} // verus!
