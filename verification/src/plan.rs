//! The finalized archive plan and the layout invariants it guarantees:
//! the entry store is strictly sorted by `(parent, name)`, every parent
//! index names a directory record, and every directory's children occupy
//! exactly its `[first_child, first_child + child_count)` range.

use vstd::prelude::*;
use crate::content::ClusterPlan;
use crate::entry::{EntryPayload, EntryRecord, entry_key_lt};
use crate::layout::OutputFile;

verus! {

/// Strict sortedness by the `(parent, name)` key.  Strictness means the
/// keys are pairwise distinct, so any re-sort of the store is a no-op.
pub open spec fn strictly_sorted(s: Seq<EntryRecord>) -> bool {
    forall|i: int, j: int| 0 <= i < j < s.len() ==> entry_key_lt(s[i], s[j])
}

/// One parent field is 0 (the root) or 1 + the index of a directory record.
pub open spec fn parent_ok(s: Seq<EntryRecord>, p: u64) -> bool {
    p == 0 || (p <= s.len() && s[p - 1].payload is Dir)
}

/// Every entry's parent field points at a directory record, or at the root.
pub open spec fn parents_valid(s: Seq<EntryRecord>) -> bool {
    forall|j: int| 0 <= j < s.len() ==> parent_ok(s, (#[trigger] s[j]).parent)
}

/// The directory record at `i` owns exactly the entries in its child
/// range: an entry has parent `i + 1` exactly when it lies inside
/// `[first_child, first_child + child_count)`, the range stays inside the
/// store, and a childless directory records `first_child == 0`.
pub open spec fn dir_range_ok(s: Seq<EntryRecord>, i: int) -> bool {
    match s[i].payload {
        EntryPayload::Dir { first_child, child_count } => {
            &&& first_child + child_count <= s.len()
            &&& (child_count == 0 ==> first_child == 0)
            &&& (forall|j: int|
                0 <= j < s.len() ==> (((#[trigger] s[j]).parent == i + 1) <==> (first_child <= j
                    < first_child + child_count)))
        },
        _ => true,
    }
}

/// Sibling contiguity over the whole store.
pub open spec fn sibling_contiguous(s: Seq<EntryRecord>) -> bool {
    forall|i: int| 0 <= i < s.len() ==> #[trigger] dir_range_ok(s, i)
}

/// The `(parent, name)` order is transitive.
pub proof fn lemma_entry_key_lt_trans(a: EntryRecord, b: EntryRecord, c: EntryRecord)
    requires
        entry_key_lt(a, b),
        entry_key_lt(b, c),
    ensures
        entry_key_lt(a, c),
{
    if a.parent == b.parent && b.parent == c.parent {
        crate::lex::lemma_lex_lt_trans(a.name@, b.name@, c.name@);
    }
}

/// Whether `a`'s key comes strictly before `b`'s.
pub fn entry_lt(a: &EntryRecord, b: &EntryRecord) -> (r: bool)
    ensures
        r == entry_key_lt(*a, *b),
{
    if a.parent != b.parent {
        a.parent < b.parent
    } else {
        crate::lex::name_lt(&a.name, &b.name)
    }
}

/// Verifies that the store is strictly sorted by `(parent, name)`.
pub fn check_sorted(s: &Vec<EntryRecord>) -> (r: bool)
    ensures
        r == strictly_sorted(s@),
{
    if s.len() == 0 {
        return true;
    }
    let mut k: usize = 1;
    while k < s.len()
        invariant
            1 <= k <= s.len(),
            forall|i: int, j: int| 0 <= i < j < k ==> entry_key_lt(s@[i], s@[j]),
        decreases s.len() - k,
    {
        if !entry_lt(&s[k - 1], &s[k]) {
            return false;
        }
        proof {
            assert forall|i: int| 0 <= i < k implies entry_key_lt(s@[i], s@[k as int]) by {
                if i < k - 1 {
                    lemma_entry_key_lt_trans(s@[i], s@[k - 1], s@[k as int]);
                }
            }
        }
        k = k + 1;
    }
    true
}

/// Verifies that every parent field names a directory record or the root.
pub fn check_parents(s: &Vec<EntryRecord>) -> (r: bool)
    ensures
        r == parents_valid(s@),
{
    let mut j: usize = 0;
    while j < s.len()
        invariant
            j <= s.len(),
            forall|jj: int| 0 <= jj < j ==> parent_ok(s@, (#[trigger] s@[jj]).parent),
        decreases s.len() - j,
    {
        let p = s[j].parent;
        if p != 0 {
            if p > s.len() as u64 {
                return false;
            }
            let pi = (p - 1) as usize;
            match &s[pi].payload {
                EntryPayload::Dir { .. } => {},
                _ => {
                    return false;
                },
            }
        }
        j = j + 1;
    }
    true
}

/// Verifies sibling contiguity: each directory's child range holds all of
/// its children and nothing else.
pub fn check_ranges(s: &Vec<EntryRecord>) -> (r: bool)
    ensures
        r == sibling_contiguous(s@),
{
    let n = s.len();
    let mut i: usize = 0;
    while i < n
        invariant
            i <= n,
            n == s@.len(),
            forall|ii: int| 0 <= ii < i ==> #[trigger] dir_range_ok(s@, ii),
        decreases n - i,
    {
        let (is_dir, fc, cc) = match &s[i].payload {
            EntryPayload::Dir { first_child, child_count } => (true, *first_child, *child_count),
            _ => (false, 0u64, 0u64),
        };
        if is_dir {
            proof {
                assert(s@[i as int].payload == (EntryPayload::Dir {
                    first_child: fc,
                    child_count: cc,
                }));
            }
            if fc > n as u64 {
                proof {
                    assert(!dir_range_ok(s@, i as int));
                }
                return false;
            }
            if cc > n as u64 - fc {
                proof {
                    assert(!dir_range_ok(s@, i as int));
                }
                return false;
            }
            if cc == 0 && fc != 0 {
                proof {
                    assert(!dir_range_ok(s@, i as int));
                }
                return false;
            }
            let mut j: usize = 0;
            while j < n
                invariant
                    i < n,
                    j <= n,
                    n == s@.len(),
                    s@[i as int].payload == (EntryPayload::Dir {
                        first_child: fc,
                        child_count: cc,
                    }),
                    fc + cc <= n,
                    forall|jj: int|
                        0 <= jj < j ==> (((#[trigger] s@[jj]).parent == i + 1) <==> (fc <= jj < fc
                            + cc)),
                decreases n - j,
            {
                let p = s[j].parent;
                let inr = fc <= j as u64 && (j as u64) < fc + cc;
                if (p == (i as u64) + 1) != inr {
                    proof {
                        assert(!dir_range_ok(s@, i as int));
                    }
                    return false;
                }
                j = j + 1;
            }
            proof {
                assert(dir_range_ok(s@, i as int));
            }
        }
        i = i + 1;
    }
    true
}

/// A named lookup structure registered over a range of the entry store.
#[derive(Clone, Copy, Debug, PartialEq, Eq, Structural)]
pub enum IndexName {
    /// `arx_entries`: covers the whole store, for range scans and mount.
    Entries,
    /// `arx_root`: covers the root's immediate children, the starting
    /// point of path resolution.
    Root,
}

/// One index of the directory pack.
#[derive(Clone, Copy, Debug, PartialEq, Eq, Structural)]
pub struct IndexInfo {
    pub name: IndexName,
    pub entry_count: u32,
    pub first_entry: u32,
}

/// Sort order within siblings: in a store that satisfies the layout
/// invariants, every directory's child range is strictly increasing — in
/// particular non-decreasing — in byte-lexicographic name.
pub proof fn lemma_sibling_sort_order(s: Seq<EntryRecord>, i: int, j1: int, j2: int)
    requires
        strictly_sorted(s),
        sibling_contiguous(s),
        0 <= i < s.len(),
        s[i].payload matches EntryPayload::Dir { first_child, child_count } && first_child <= j1
            < j2 < first_child + child_count,
    ensures
        crate::lex::lex_lt(s[j1].name@, s[j2].name@),
{
    assert(dir_range_ok(s, i));
    assert(s[j1].parent == i + 1 && s[j2].parent == i + 1);
    assert(entry_key_lt(s[j1], s[j2]));
}

/// Index stability under sort: re-sorting a finalized store by
/// `(parent, name)` is a no-op.  A strictly sorted store is the only
/// sorted arrangement of its entries, so any permutation of it that is
/// sorted by the same key is the store itself, entry for entry.
pub proof fn lemma_resort_is_noop(s: Seq<EntryRecord>, t: Seq<EntryRecord>)
    requires
        strictly_sorted(s),
        strictly_sorted(t),
        s.to_multiset() == t.to_multiset(),
    ensures
        s == t,
    decreases s.len(),
{
    broadcast use vstd::seq_lib::group_to_multiset_ensures;

    assert(s.len() == s.to_multiset().len());
    assert(t.len() == t.to_multiset().len());
    if s.len() == 0 {
        assert(s =~= t);
    } else {
        assert(s.contains(s[0]));
        assert(t.to_multiset().count(s[0]) > 0);
        assert(t.contains(s[0]));
        let j = choose|j: int| 0 <= j < t.len() && t[j] == s[0];
        assert(t.contains(t[0]));
        assert(s.to_multiset().count(t[0]) > 0);
        assert(s.contains(t[0]));
        let i = choose|i: int| 0 <= i < s.len() && s[i] == t[0];
        if j > 0 && i > 0 {
            assert(entry_key_lt(t[0], t[j]));
            assert(entry_key_lt(s[0], s[i]));
            lemma_entry_key_lt_trans(t[0], s[0], t[0]);
            crate::lex::lemma_lex_lt_trichotomy(t[0].name@, t[0].name@);
            assert(false);
        }
        assert(s[0] == t[0]);
        let s1 = s.remove(0);
        let t1 = t.remove(0);
        assert(s1.to_multiset() =~= s.to_multiset().remove(s[0]));
        assert(t1.to_multiset() =~= t.to_multiset().remove(t[0]));
        assert(s1.to_multiset() == t1.to_multiset());
        assert forall|i1: int, j1: int| 0 <= i1 < j1 < s1.len() implies entry_key_lt(
            s1[i1],
            s1[j1],
        ) by {
            assert(s1[i1] == s[i1 + 1] && s1[j1] == s[j1 + 1]);
        }
        assert forall|i1: int, j1: int| 0 <= i1 < j1 < t1.len() implies entry_key_lt(
            t1[i1],
            t1[j1],
        ) by {
            assert(t1[i1] == t[i1 + 1] && t1[j1] == t[j1 + 1]);
        }
        lemma_resort_is_noop(s1, t1);
        assert forall|k: int| 0 <= k < s.len() implies s[k] == t[k] by {
            if k > 0 {
                assert(s[k] == s1[k - 1] && t[k] == t1[k - 1]);
            }
        }
        assert(s =~= t);
    }
}

/// Whether some position of the layout order names record `rr`.
pub open spec fn order_covers(order: Seq<usize>, rr: int) -> bool {
    exists|q: int| 0 <= q < order.len() && (#[trigger] order[q]) as int == rr
}

/// A finalized entry carries over its pending record's name, attributes
/// and kind-specific values; only the layout numbers are new.
pub open spec fn record_matches(pr: crate::creator::PendingRecord, er: EntryRecord) -> bool {
    &&& er.name@ == pr.name@
    &&& er.attrs == pr.attrs
    &&& (match pr.payload {
        crate::creator::PendingPayload::File { content, size } => er.payload == (
        EntryPayload::File { content, size }),
        crate::creator::PendingPayload::Dir { node } => er.payload is Dir,
        crate::creator::PendingPayload::Link { target } => er.payload
            matches EntryPayload::Link { target: t2 } && t2@ == target@,
    })
}

/// The fully resolved plan of the archive: the sorted entry store, the
/// permutation that produced it, the two named indexes, the output file
/// inventory, and the content pack's clusters.  Everything the pack
/// writer needs, with no deferred value left.
#[derive(Debug)]
pub struct ArchivePlan {
    pub entries: Vec<EntryRecord>,
    pub order: Vec<usize>,
    pub indexes: Vec<IndexInfo>,
    pub outputs: Vec<OutputFile>,
    pub clusters: Vec<ClusterPlan>,
}

} // verus!
