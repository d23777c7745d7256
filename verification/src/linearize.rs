//! The tree linearizer: depth-first reordering of retained records with
//! tombstone pruning.
//!
//! The mathematical heart is the pair `walk_node` / `walk_list`: the
//! pre-order walk of a forest stored as a map from id to record data. A node
//! is emitted before its children, children in stored order, siblings in
//! listed order; every consumed node is removed from the map, so an id is
//! emitted at most once even if the children arrays reference it twice.

use vstd::prelude::*;
use vstd::set_lib::lemma_len_subset;
use crate::records::{Record, RecordData, RecordView, record_at, clone_opt_string, copy_ids, ids_contain};
use crate::arena::{RecordArena, IdSet};

verus! {

/// The views of a sequence of records.
pub open spec fn views_of(s: Seq<Record>) -> Seq<RecordView> {
    s.map_values(|r: Record| r@)
}

pub proof fn lemma_views_of_push(s: Seq<Record>, r: Record)
    ensures
        views_of(s.push(r)) == views_of(s).push(r@),
{
    assert(views_of(s.push(r)) =~= views_of(s).push(r@));
}

/// Removing keys from a finite map keeps it finite and no larger.
pub proof fn lemma_remove_keys_le(m: Map<u64, RecordData>, keys: Set<u64>)
    requires
        m.dom().finite(),
    ensures
        m.remove_keys(keys).dom().finite(),
        m.remove_keys(keys).dom().len() <= m.dom().len(),
{
    assert(m.remove_keys(keys).dom().subset_of(m.dom()));
    lemma_len_subset(m.remove_keys(keys).dom(), m.dom());
}

/// The pre-order walk of the subtree rooted at `id`: the node itself (at
/// `depth`), then the walks of its children in stored order, each against the
/// map as the previous one left it. A node no longer in the map contributes
/// nothing. The second component is the set of ids consumed.
pub open spec fn walk_node(m: Map<u64, RecordData>, id: u64, depth: nat) -> (Seq<RecordView>, Set<
    u64,
>)
    decreases m.dom().len(), 0nat, 0nat,
    when m.dom().finite()
{
    if m.dom().contains(id) {
        let d = m[id];
        let (sub, used) = walk_list(m.remove(id), d.children, depth + 1);
        (seq![record_at(id, depth, d)] + sub, used.insert(id))
    } else {
        (Seq::<RecordView>::empty(), Set::<u64>::empty())
    }
}

/// The pre-order walk of a list of sibling subtrees, left to right: each
/// sibling walks the map left over by the ones before it.
pub open spec fn walk_list(m: Map<u64, RecordData>, ids: Seq<u64>, depth: nat) -> (Seq<RecordView>,
    Set<u64>)
    decreases m.dom().len(), ids.len(), 1nat,
    when m.dom().finite()
{
    if ids.len() == 0 {
        (Seq::<RecordView>::empty(), Set::<u64>::empty())
    } else {
        let (s1, u1) = walk_node(m, ids[0], depth);
        proof {
            lemma_remove_keys_le(m, u1);
        }
        let (s2, u2) = walk_list(m.remove_keys(u1), ids.drop_first(), depth);
        (s1 + s2, u1.union(u2))
    }
}

/// Restricting a finite map keeps it finite.
pub proof fn lemma_restrict_finite(m: Map<u64, RecordData>, keys: Set<u64>)
    requires
        m.dom().finite(),
    ensures
        m.restrict(keys).dom().finite(),
        m.restrict(keys).dom().len() <= m.dom().len(),
{
    assert(m.restrict(keys).dom().subset_of(m.dom()));
    lemma_len_subset(m.restrict(keys).dom(), m.dom());
}

/// What the walk of one subtree emits: ids it consumed, each exactly once,
/// each carrying the data the map held for it, none shallower than the root
/// of the subtree.
pub proof fn lemma_walk_node_used(m: Map<u64, RecordData>, id: u64, depth: nat)
    requires
        m.dom().finite(),
    ensures
        ({
            let (s, u) = walk_node(m, id, depth);
            &&& u.subset_of(m.dom())
            &&& forall|i: int|
                0 <= i < s.len() ==> {
                    &&& u.contains((#[trigger] s[i]).id)
                    &&& m.dom().contains(s[i].id)
                    &&& s[i].data() == m[s[i].id]
                    &&& s[i].depth >= depth
                }
            &&& forall|x: u64|
                u.contains(x) ==> exists|i: int| 0 <= i < s.len() && (#[trigger] s[i]).id == x
            &&& forall|i: int, j: int| 0 <= i < j < s.len() ==> s[i].id != s[j].id
        }),
    decreases m.dom().len(), 0nat, 0nat,
{
    if m.dom().contains(id) {
        let d = m[id];
        let m1 = m.remove(id);
        lemma_walk_list_used(m1, d.children, depth + 1);
        let (sub, used) = walk_list(m1, d.children, depth + 1);
        let (s, u) = walk_node(m, id, depth);
        assert(s == seq![record_at(id, depth, d)] + sub);
        assert(s[0] == record_at(id, depth, d));
        assert forall|i: int| 0 <= i < s.len() implies {
            &&& u.contains((#[trigger] s[i]).id)
            &&& m.dom().contains(s[i].id)
            &&& s[i].data() == m[s[i].id]
            &&& s[i].depth >= depth
        } by {
            if i > 0 {
                assert(s[i] == sub[i - 1]);
                assert(used.contains(sub[i - 1].id));
                assert(m1.dom().contains(sub[i - 1].id));
                assert(sub[i - 1].id != id);
            }
        }
        assert forall|x: u64| u.contains(x) implies exists|i: int|
            0 <= i < s.len() && (#[trigger] s[i]).id == x by {
            if x == id {
                assert(s[0].id == x);
            } else {
                let j = choose|j: int| 0 <= j < sub.len() && (#[trigger] sub[j]).id == x;
                assert(s[j + 1].id == x);
            }
        }
        assert forall|i: int, j: int| 0 <= i < j < s.len() implies s[i].id != s[j].id by {
            if i == 0 {
                assert(s[j].id == sub[j - 1].id);
                assert(used.contains(sub[j - 1].id));
                assert(m1.dom().contains(sub[j - 1].id));
            } else {
                assert(s[i] == sub[i - 1] && s[j] == sub[j - 1]);
            }
        }
    }
}

/// What the walk of a sibling list emits, stated as for `lemma_walk_node_used`.
pub proof fn lemma_walk_list_used(m: Map<u64, RecordData>, ids: Seq<u64>, depth: nat)
    requires
        m.dom().finite(),
    ensures
        ({
            let (s, u) = walk_list(m, ids, depth);
            &&& u.subset_of(m.dom())
            &&& forall|i: int|
                0 <= i < s.len() ==> {
                    &&& u.contains((#[trigger] s[i]).id)
                    &&& m.dom().contains(s[i].id)
                    &&& s[i].data() == m[s[i].id]
                    &&& s[i].depth >= depth
                }
            &&& forall|x: u64|
                u.contains(x) ==> exists|i: int| 0 <= i < s.len() && (#[trigger] s[i]).id == x
            &&& forall|i: int, j: int| 0 <= i < j < s.len() ==> s[i].id != s[j].id
        }),
    decreases m.dom().len(), ids.len(), 1nat,
{
    if ids.len() > 0 {
        lemma_walk_node_used(m, ids[0], depth);
        let (s1, u1) = walk_node(m, ids[0], depth);
        lemma_remove_keys_le(m, u1);
        let m2 = m.remove_keys(u1);
        lemma_walk_list_used(m2, ids.drop_first(), depth);
        let (s2, u2) = walk_list(m2, ids.drop_first(), depth);
        let (s, u) = walk_list(m, ids, depth);
        assert(s == s1 + s2 && u == u1.union(u2));
        assert forall|i: int| 0 <= i < s.len() implies {
            &&& u.contains((#[trigger] s[i]).id)
            &&& m.dom().contains(s[i].id)
            &&& s[i].data() == m[s[i].id]
            &&& s[i].depth >= depth
        } by {
            if i < s1.len() {
                assert(s[i] == s1[i]);
            } else {
                assert(s[i] == s2[i - s1.len()]);
                assert(m2.dom().contains(s[i].id));
            }
        }
        assert forall|x: u64| u.contains(x) implies exists|i: int|
            0 <= i < s.len() && (#[trigger] s[i]).id == x by {
            if u1.contains(x) {
                let j = choose|j: int| 0 <= j < s1.len() && (#[trigger] s1[j]).id == x;
                assert(s[j].id == x);
            } else {
                let j = choose|j: int| 0 <= j < s2.len() && (#[trigger] s2[j]).id == x;
                assert(s[s1.len() + j].id == x);
            }
        }
        assert forall|i: int, j: int| 0 <= i < j < s.len() implies s[i].id != s[j].id by {
            if i < s1.len() && j >= s1.len() {
                assert(s[i] == s1[i] && s[j] == s2[j - s1.len()]);
                assert(u1.contains(s1[i].id));
                assert(u2.contains(s2[j - s1.len()].id));
                assert(m2.dom().contains(s2[j - s1.len()].id));
            } else if i >= s1.len() {
                assert(s[i] == s2[i - s1.len()] && s[j] == s2[j - s1.len()]);
            } else {
                assert(s[i] == s1[i] && s[j] == s1[j]);
            }
        }
    }
}

/// Walking a concatenation of sibling lists is walking the first list, then
/// the second against the map the first one left.
pub proof fn lemma_walk_list_concat(m: Map<u64, RecordData>, pre: Seq<u64>, suf: Seq<u64>, depth: nat)
    requires
        m.dom().finite(),
    ensures
        ({
            let (s1, u1) = walk_list(m, pre, depth);
            let (s2, u2) = walk_list(m.remove_keys(u1), suf, depth);
            walk_list(m, pre + suf, depth) == (s1 + s2, u1.union(u2))
        }),
    decreases pre.len(),
{
    let (s1, u1) = walk_list(m, pre, depth);
    lemma_remove_keys_le(m, u1);
    let (s2, u2) = walk_list(m.remove_keys(u1), suf, depth);
    if pre.len() == 0 {
        assert(pre + suf =~= suf);
        assert(m.remove_keys(u1) =~= m);
        assert(s1 + s2 =~= s2);
        assert(u1.union(u2) =~= u2);
    } else {
        let h = pre[0];
        let (sn, un) = walk_node(m, h, depth);
        lemma_remove_keys_le(m, un);
        let m1 = m.remove_keys(un);
        assert((pre + suf)[0] == h);
        assert((pre + suf).drop_first() =~= pre.drop_first() + suf);
        lemma_walk_list_concat(m1, pre.drop_first(), suf, depth);
        let (sa, ua) = walk_list(m1, pre.drop_first(), depth);
        lemma_remove_keys_le(m1, ua);
        let (sb, ub) = walk_list(m1.remove_keys(ua), suf, depth);
        // the whole walk, unfolded once
        assert(walk_list(m, pre + suf, depth) == (sn + (sa + sb), un.union(ua.union(ub))));
        // the first-list walk, unfolded once
        assert(s1 == sn + sa && u1 == un.union(ua));
        assert(m.remove_keys(u1) =~= m1.remove_keys(ua));
        assert(s1 + s2 =~= sn + (sa + sb));
        assert(u1.union(u2) =~= un.union(ua.union(ub)));
    }
}

/// Dropping ids the walk never consumes does not change the walk (subtree
/// form).
pub proof fn lemma_walk_node_restrict(m: Map<u64, RecordData>, keep: Set<u64>, id: u64, depth: nat)
    requires
        m.dom().finite(),
        walk_node(m, id, depth).1.subset_of(keep),
    ensures
        walk_node(m.restrict(keep), id, depth) == walk_node(m, id, depth),
    decreases m.dom().len(), 0nat, 0nat,
{
    lemma_restrict_finite(m, keep);
    if m.dom().contains(id) {
        let d = m[id];
        let m1 = m.remove(id);
        let (sub, used) = walk_list(m1, d.children, depth + 1);
        assert(walk_node(m, id, depth).1 == used.insert(id));
        assert(m.restrict(keep).dom().contains(id));
        assert(m.restrict(keep)[id] == d);
        assert(m.restrict(keep).remove(id) =~= m1.restrict(keep));
        lemma_walk_list_restrict(m1, keep, d.children, depth + 1);
    } else {
        assert(!m.restrict(keep).dom().contains(id));
    }
}

/// Dropping ids the walk never consumes does not change the walk (sibling
/// list form).
pub proof fn lemma_walk_list_restrict(m: Map<u64, RecordData>, keep: Set<u64>, ids: Seq<u64>, depth: nat)
    requires
        m.dom().finite(),
        walk_list(m, ids, depth).1.subset_of(keep),
    ensures
        walk_list(m.restrict(keep), ids, depth) == walk_list(m, ids, depth),
    decreases m.dom().len(), ids.len(), 1nat,
{
    lemma_restrict_finite(m, keep);
    if ids.len() > 0 {
        let (s1, u1) = walk_node(m, ids[0], depth);
        lemma_remove_keys_le(m, u1);
        let m2 = m.remove_keys(u1);
        let (s2, u2) = walk_list(m2, ids.drop_first(), depth);
        assert(walk_list(m, ids, depth) == (s1 + s2, u1.union(u2)));
        assert(u1.subset_of(keep)) by {
            assert forall|x: u64| u1.contains(x) implies keep.contains(x) by {
                assert(u1.union(u2).contains(x));
            }
        }
        assert(u2.subset_of(keep)) by {
            assert forall|x: u64| u2.contains(x) implies keep.contains(x) by {
                assert(u1.union(u2).contains(x));
            }
        }
        lemma_walk_node_restrict(m, keep, ids[0], depth);
        let mr = m.restrict(keep);
        assert(walk_node(mr, ids[0], depth) == (s1, u1));
        assert(mr.remove_keys(u1) =~= m2.restrict(keep));
        lemma_walk_list_restrict(m2, keep, ids.drop_first(), depth);
        lemma_remove_keys_le(mr, u1);
        assert(walk_list(mr.remove_keys(u1), ids.drop_first(), depth) == (s2, u2));
        assert(walk_list(mr, ids, depth) == (s1 + s2, u1.union(u2))) by {
            reveal_with_fuel(walk_list, 2);
        }
    }
}

/// The map a sequence of records stands for when indexed by id, later
/// entries replacing earlier ones.
pub open spec fn index_records(s: Seq<RecordView>) -> Map<u64, RecordData>
    decreases s.len(),
{
    if s.len() == 0 {
        Map::<u64, RecordData>::empty()
    } else {
        index_records(s.drop_last()).insert(s.last().id, s.last().data())
    }
}

/// The ids a sequence of records carries.
pub open spec fn ids_of(s: Seq<RecordView>) -> Set<u64> {
    Set::new(|id: u64| exists|i: int| 0 <= i < s.len() && (#[trigger] s[i]).id == id)
}

/// Indexing records with distinct ids that agree with a map recovers the
/// restriction of that map to their ids.
pub proof fn lemma_index_records(s: Seq<RecordView>, m: Map<u64, RecordData>)
    requires
        forall|i: int, j: int| 0 <= i < j < s.len() ==> s[i].id != s[j].id,
        forall|i: int|
            0 <= i < s.len() ==> m.dom().contains((#[trigger] s[i]).id) && s[i].data()
                == m[s[i].id],
    ensures
        index_records(s) == m.restrict(ids_of(s)),
    decreases s.len(),
{
    if s.len() == 0 {
        assert forall|id: u64| !ids_of(s).contains(id) by {}
        assert(index_records(s) =~= m.restrict(ids_of(s)));
    } else {
        let s0 = s.drop_last();
        let last = s.last();
        lemma_index_records(s0, m);
        assert forall|id: u64| #[trigger] ids_of(s).contains(id) == (ids_of(s0).contains(id) || id
            == last.id) by {
            if ids_of(s).contains(id) {
                let i = choose|i: int| 0 <= i < s.len() && (#[trigger] s[i]).id == id;
                if i < s.len() - 1 {
                    assert(s0[i].id == id);
                }
            }
            if ids_of(s0).contains(id) {
                let i = choose|i: int| 0 <= i < s0.len() && (#[trigger] s0[i]).id == id;
                assert(s[i].id == id);
            }
            if id == last.id {
                assert(s[s.len() - 1].id == id);
            }
        }
        assert forall|i: int| 0 <= i < s0.len() implies s0[i].id != last.id by {
            assert(s[i].id == s0[i].id);
        }
        assert(!ids_of(s0).contains(last.id));
        assert(index_records(s) =~= m.restrict(ids_of(s)));
    }
}

/// Fresh/cache equivalence: linearize a tree, index the output by id as a
/// cache would store it, and linearize again from the same root ordering:
/// the second walk reproduces the first output exactly, records, depths and
/// children alike.
pub proof fn lemma_fresh_cache_equivalence(m: Map<u64, RecordData>, roots: Seq<u64>)
    requires
        m.dom().finite(),
    ensures
        walk_list(index_records(walk_list(m, roots, 0).0), roots, 0) == walk_list(m, roots, 0),
{
    let (s, u) = walk_list(m, roots, 0);
    lemma_walk_list_used(m, roots, 0);
    assert forall|x: u64| #[trigger] ids_of(s).contains(x) == u.contains(x) by {
        if ids_of(s).contains(x) {
            let i = choose|i: int| 0 <= i < s.len() && (#[trigger] s[i]).id == x;
            assert(u.contains(s[i].id));
        }
    }
    assert(ids_of(s) =~= u);
    lemma_index_records(s, m);
    lemma_walk_list_restrict(m, u, roots, 0);
}

/// Emits the subtree rooted at `id` onto `out` and consumes it from the
/// arena, exactly as `walk_node` describes.
fn walk_node_exec(arena: RecordArena, out: &mut Vec<Record>, id: u64, depth: usize) -> (res:
    RecordArena)
    requires
        arena.wf(),
        depth + arena@.dom().len() <= usize::MAX,
    ensures
        res.wf(),
        res@ == arena@.remove_keys(walk_node(arena@, id, depth as nat).1),
        views_of(final(out)@) == views_of(old(out)@) + walk_node(arena@, id, depth as nat).0,
    decreases arena@.dom().len(), 0nat,
{
    let ghost m0 = arena@;
    proof {
        arena.lemma_dom_finite();
    }
    let mut arena = arena;
    match arena.take(id) {
        None => {
            proof {
                assert(walk_node(m0, id, depth as nat) == (
                    Seq::<RecordView>::empty(),
                    Set::<u64>::empty(),
                ));
                assert(m0.remove_keys(Set::<u64>::empty()) =~= m0);
                assert(views_of(out@) =~= views_of(out@) + Seq::<RecordView>::empty());
            }
            arena
        },
        Some(mut rec) => {
            let ghost d = m0[id];
            let ghost m1 = m0.remove(id);
            let kids = copy_ids(&rec.children);
            rec.depth = depth;
            proof {
                assert(rec@ == record_at(id, depth as nat, d));
            }
            let ghost out_before = out@;
            out.push(rec);
            proof {
                lemma_views_of_push(out_before, rec);
                assert(m1.dom() =~= m0.dom().remove(id));
                assert(m1.dom().len() == m0.dom().len() - 1);
            }
            let res = walk_list_exec(arena, out, &kids, depth + 1);
            proof {
                let (sub, used) = walk_list(m1, d.children, (depth + 1) as nat);
                assert(walk_node(m0, id, depth as nat) == (
                    seq![record_at(id, depth as nat, d)] + sub,
                    used.insert(id),
                ));
                assert(res@ =~= m0.remove_keys(used.insert(id))) by {
                    assert(res@ == m1.remove_keys(used));
                }
                assert(views_of(out@) =~= views_of(out_before) + (seq![
                    record_at(id, depth as nat, d),
                ] + sub));
            }
            res
        },
    }
}

/// Emits the subtrees of a sibling list onto `out`, left to right, exactly
/// as `walk_list` describes.
#[verifier::loop_isolation(false)]
fn walk_list_exec(arena: RecordArena, out: &mut Vec<Record>, ids: &Vec<u64>, depth: usize) -> (res:
    RecordArena)
    requires
        arena.wf(),
        depth + arena@.dom().len() <= usize::MAX,
    ensures
        res.wf(),
        res@ == arena@.remove_keys(walk_list(arena@, ids@, depth as nat).1),
        views_of(final(out)@) == views_of(old(out)@) + walk_list(arena@, ids@, depth as nat).0,
    decreases arena@.dom().len(), 1nat,
{
    let ghost m0 = arena@;
    proof {
        arena.lemma_dom_finite();
    }
    let mut arena = arena;
    let n = ids.len();
    let mut i: usize = 0;
    while i < n
        invariant
            arena.wf(),
            m0.dom().finite(),
            n == ids@.len(),
            0 <= i <= n,
            depth + m0.dom().len() <= usize::MAX,
            arena@ == m0.remove_keys(walk_list(m0, ids@.take(i as int), depth as nat).1),
            views_of(out@) == views_of(old(out)@) + walk_list(
                m0,
                ids@.take(i as int),
                depth as nat,
            ).0,
        decreases n - i,
    {
        let ghost taken = ids@.take(i as int);
        let ghost u_pre = walk_list(m0, taken, depth as nat).1;
        proof {
            lemma_remove_keys_le(m0, u_pre);
        }
        let ghost ma = arena@;
        let ghost out_mid = out@;
        proof {
            assert(arena@.dom().len() <= m0.dom().len());
        }
        let arena2 = walk_node_exec(arena, out, ids[i], depth);
        arena = arena2;
        proof {
            let c = ids@[i as int];
            let (sc, uc) = walk_node(ma, c, depth as nat);
            assert(taken.push(c) =~= ids@.take(i + 1 as int));
            lemma_walk_list_concat(m0, taken, seq![c], depth as nat);
            assert(walk_list(ma, seq![c], depth as nat) == (sc, uc)) by {
                reveal_with_fuel(walk_list, 2);
                assert(seq![c].drop_first() =~= Seq::<u64>::empty());
                assert(seq![c][0] == c);
                lemma_remove_keys_le(ma, uc);
                assert(sc + Seq::<RecordView>::empty() =~= sc);
                assert(uc.union(Set::<u64>::empty()) =~= uc);
            }
            assert(taken + seq![c] =~= ids@.take(i + 1 as int));
            assert(walk_list(m0, ids@.take(i + 1 as int), depth as nat) == (
                walk_list(m0, taken, depth as nat).0 + sc,
                u_pre.union(uc),
            ));
            assert(arena@ =~= m0.remove_keys(u_pre.union(uc))) by {
                assert(arena@ == ma.remove_keys(uc));
            }
            assert(views_of(out@) =~= views_of(old(out)@) + walk_list(
                m0,
                ids@.take(i + 1 as int),
                depth as nat,
            ).0) by {
                assert(views_of(out@) == views_of(out_mid) + sc);
            }
        }
        i += 1;
    }
    proof {
        assert(ids@.take(n as int) =~= ids@);
    }
    arena
}

/// Core depth-first ordering: walks the arena from the root child list and
/// returns the pre-order sequence of surviving records, depths assigned from
/// the walk.
pub fn linearize(arena: RecordArena, root_children: &Vec<u64>) -> (out: Vec<Record>)
    requires
        arena.wf(),
    ensures
        views_of(out@) == walk_list(arena@, root_children@, 0).0,
{
    let bound = arena.bound();
    let mut out: Vec<Record> = Vec::new();
    proof {
        assert(views_of(out@) =~= Seq::<RecordView>::empty());
    }
    let _rest = walk_list_exec(arena, &mut out, root_children, 0);
    proof {
        assert(Seq::<RecordView>::empty() + walk_list(arena@, root_children@, 0).0 =~= walk_list(
            arena@,
            root_children@,
            0,
        ).0);
    }
    out
}

/// The children a node keeps after pruning: a child goes only if it was
/// attempted and is missing from the retained map (deleted, dead or failed);
/// a child never attempted (beyond the depth bound) stays.
pub open spec fn kept_children(children: Seq<u64>, attempted: Set<u64>, present: Set<u64>) -> Seq<
    u64,
>
    decreases children.len(),
{
    if children.len() == 0 {
        Seq::<u64>::empty()
    } else {
        let rest = kept_children(children.drop_first(), attempted, present);
        if !attempted.contains(children[0]) || present.contains(children[0]) {
            seq![children[0]] + rest
        } else {
            rest
        }
    }
}

pub open spec fn prune_data(d: RecordData, attempted: Set<u64>, present: Set<u64>) -> RecordData {
    RecordData {
        author: d.author,
        created_at: d.created_at,
        body: d.body,
        children: kept_children(d.children, attempted, present),
    }
}

/// The retained map with every node's children pruned against the attempt
/// set.
pub open spec fn pruned(m: Map<u64, RecordData>, attempted: Set<u64>) -> Map<u64, RecordData> {
    Map::new(|id: u64| m.dom().contains(id), |id: u64| prune_data(m[id], attempted, m.dom()))
}

proof fn lemma_kept_children_snoc(s: Seq<u64>, c: u64, attempted: Set<u64>, present: Set<u64>)
    ensures
        kept_children(s.push(c), attempted, present) == kept_children(s, attempted, present) + (
        if !attempted.contains(c) || present.contains(c) {
            seq![c]
        } else {
            Seq::<u64>::empty()
        }),
    decreases s.len(),
{
    let tail = (if !attempted.contains(c) || present.contains(c) {
        seq![c]
    } else {
        Seq::<u64>::empty()
    });
    if s.len() == 0 {
        reveal_with_fuel(kept_children, 2);
        assert(s.push(c)[0] == c);
        assert(s.push(c).drop_first() =~= Seq::<u64>::empty());
        assert(kept_children(s.push(c), attempted, present) =~= tail);
        assert(kept_children(s, attempted, present) + tail =~= tail);
    } else {
        assert(s.push(c)[0] == s[0]);
        assert(s.push(c).drop_first() =~= s.drop_first().push(c));
        lemma_kept_children_snoc(s.drop_first(), c, attempted, present);
        if !attempted.contains(s[0]) || present.contains(s[0]) {
            assert(kept_children(s.push(c), attempted, present) =~= kept_children(
                s,
                attempted,
                present,
            ) + tail);
        }
    }
}

/// Tombstone pruning: an attempted-and-missing child is dropped from the
/// kept children; a never-attempted or still-present child in the list is
/// kept.
pub proof fn lemma_tombstone_pruning(
    children: Seq<u64>,
    attempted: Set<u64>,
    present: Set<u64>,
    c: u64,
)
    ensures
        attempted.contains(c) && !present.contains(c) ==> !kept_children(
            children,
            attempted,
            present,
        ).contains(c),
        children.contains(c) && (!attempted.contains(c) || present.contains(c)) ==> kept_children(
            children,
            attempted,
            present,
        ).contains(c),
    decreases children.len(),
{
    if children.len() > 0 {
        lemma_tombstone_pruning(children.drop_first(), attempted, present, c);
        let rest = kept_children(children.drop_first(), attempted, present);
        if !attempted.contains(children[0]) || present.contains(children[0]) {
            let whole = seq![children[0]] + rest;
            assert(kept_children(children, attempted, present) == whole);
            if attempted.contains(c) && !present.contains(c) {
                if whole.contains(c) {
                    let k = choose|k: int| 0 <= k < whole.len() && whole[k] == c;
                    assert(k > 0);
                    assert(rest[k - 1] == c);
                    assert(rest.contains(c));
                    assert(false);
                }
            }
        }
        if children.contains(c) && (!attempted.contains(c) || present.contains(c)) {
            let k = choose|k: int| 0 <= k < children.len() && children[k] == c;
            if k == 0 {
                assert(kept_children(children, attempted, present)[0] == c);
            } else {
                assert(children.drop_first()[k - 1] == c);
                assert(children.drop_first().contains(c));
                assert(rest.contains(c));
                let j = choose|j: int| 0 <= j < rest.len() && rest[j] == c;
                if !attempted.contains(children[0]) || present.contains(children[0]) {
                    assert(kept_children(children, attempted, present)[j + 1] == c);
                }
            }
        }
    }
}

/// All-children-deleted: a node all of whose children were attempted and are
/// missing ends up with no children at all.
pub proof fn lemma_all_children_missing(children: Seq<u64>, attempted: Set<u64>, present: Set<u64>)
    requires
        forall|i: int|
            0 <= i < children.len() ==> attempted.contains(#[trigger] children[i])
                && !present.contains(children[i]),
    ensures
        kept_children(children, attempted, present) == Seq::<u64>::empty(),
    decreases children.len(),
{
    if children.len() > 0 {
        assert forall|i: int| 0 <= i < children.drop_first().len() implies attempted.contains(
            #[trigger] children.drop_first()[i],
        ) && !present.contains(children.drop_first()[i]) by {
            assert(children.drop_first()[i] == children[i + 1]);
        }
        lemma_all_children_missing(children.drop_first(), attempted, present);
    }
}

/// Pre-order invariant: the walk emits the head sibling's whole subtree
/// before the remaining siblings, and a retained node immediately before the
/// walk of its own children; siblings keep their listed order.
pub proof fn lemma_preorder(m: Map<u64, RecordData>, ids: Seq<u64>, depth: nat)
    requires
        m.dom().finite(),
        ids.len() > 0,
    ensures
        walk_list(m, ids, depth).0 == walk_node(m, ids[0], depth).0 + walk_list(
            m.remove_keys(walk_node(m, ids[0], depth).1),
            ids.drop_first(),
            depth,
        ).0,
        m.dom().contains(ids[0]) ==> walk_node(m, ids[0], depth).0 == seq![
            record_at(ids[0], depth, m[ids[0]]),
        ] + walk_list(m.remove(ids[0]), m[ids[0]].children, depth + 1).0,
        !m.dom().contains(ids[0]) ==> walk_node(m, ids[0], depth).0 == Seq::<RecordView>::empty(),
{
    lemma_remove_keys_le(m, walk_node(m, ids[0], depth).1);
}

/// Prunes every retained node's children against the attempt set, as the
/// fresh-fetch path does before linearizing.
#[verifier::loop_isolation(false)]
pub fn prune(arena: &RecordArena, attempted: &IdSet) -> (out: RecordArena)
    requires
        arena.wf(),
    ensures
        out.wf(),
        out@ == pruned(arena@, attempted@),
{
    let ids = arena.live_ids();
    let mut out = RecordArena::new();
    let ghost target = pruned(arena@, attempted@);
    proof {
        assert(out@ =~= target.restrict(ids@.take(0).to_set()));
    }
    let n = ids.len();
    let mut i: usize = 0;
    while i < n
        invariant
            0 <= i <= n,
            out.wf(),
            out@ == target.restrict(ids@.take(i as int).to_set()),
        decreases n - i,
    {
        let id = ids[i];
        proof {
            assert(ids@.to_set().contains(id));
        }
        match arena.get(id) {
            Some(rec) => {
                let m = rec.children.len();
                let mut kept: Vec<u64> = Vec::new();
                let mut j: usize = 0;
                while j < m
                    invariant
                        0 <= j <= m,
                        m == rec.children@.len(),
                        kept@ == kept_children(rec.children@.take(j as int), attempted@, arena@.dom()),
                    decreases m - j,
                {
                    let c = rec.children[j];
                    let keep_it = !attempted.contains(c) || arena.contains(c);
                    proof {
                        lemma_kept_children_snoc(
                            rec.children@.take(j as int),
                            c,
                            attempted@,
                            arena@.dom(),
                        );
                        assert(rec.children@.take(j + 1 as int) =~= rec.children@.take(
                            j as int,
                        ).push(c));
                    }
                    if keep_it {
                        kept.push(c);
                    }
                    proof {
                        if keep_it {
                            assert(kept@ =~= kept_children(
                                rec.children@.take(j as int),
                                attempted@,
                                arena@.dom(),
                            ) + seq![c]);
                        } else {
                            assert(kept@ =~= kept_children(
                                rec.children@.take(j as int),
                                attempted@,
                                arena@.dom(),
                            ) + Seq::<u64>::empty());
                        }
                    }
                    j += 1;
                }
                proof {
                    assert(rec.children@.take(m as int) =~= rec.children@);
                }
                let new_rec = Record {
                    id: rec.id,
                    author: clone_opt_string(&rec.author),
                    created_at: rec.created_at,
                    body: clone_opt_string(&rec.body),
                    children: kept,
                    depth: rec.depth,
                };
                proof {
                    assert(new_rec@.data() == prune_data(arena@[id], attempted@, arena@.dom()));
                }
                out.insert(new_rec);
                proof {
                    assert(ids@.take(i + 1 as int) =~= ids@.take(i as int).push(id));
                    assert forall|x: u64| #[trigger] ids@.take(i + 1 as int).to_set().contains(x)
                        == ids@.take(i as int).to_set().insert(id).contains(x) by {
                        if ids@.take(i + 1 as int).to_set().contains(x) {
                            let k = choose|k: int|
                                0 <= k < i + 1 && #[trigger] ids@.take(i + 1 as int)[k] == x;
                            if k < i {
                                assert(ids@.take(i as int)[k] == x);
                            }
                        }
                        if ids@.take(i as int).to_set().contains(x) {
                            let k = choose|k: int| 0 <= k < i && ids@.take(i as int)[k] == x;
                            assert(ids@.take(i + 1 as int)[k] == x);
                        }
                        if x == id {
                            assert(ids@.take(i + 1 as int)[i as int] == x);
                        }
                    }
                    assert(ids@.take(i + 1 as int).to_set() =~= ids@.take(i as int).to_set().insert(
                        id,
                    ));
                    assert(new_rec@.id == id);
                    assert(target.dom().contains(id));
                    assert(target[id] == prune_data(arena@[id], attempted@, arena@.dom()));
                    assert(out@ =~= target.restrict(ids@.take(i + 1 as int).to_set()));
                }
            },
            None => {
                proof {
                    assert(false);
                }
            },
        }
        i += 1;
    }
    proof {
        assert(ids@.take(n as int) =~= ids@);
        assert(out@ =~= target) by {
            assert(forall|x: u64| target.dom().contains(x) ==> ids@.to_set().contains(x));
        }
    }
    out
}

/// Builds the displayable comment tree from one traversal's retained items,
/// attempt set and root child list: tombstone pruning, then the pre-order
/// walk.
pub fn build_comment_tree(items: RecordArena, attempted: &IdSet, root_children: &Vec<u64>) -> (out:
    Vec<Record>)
    requires
        items.wf(),
    ensures
        views_of(out@) == walk_list(pruned(items@, attempted@), root_children@, 0).0,
{
    let p = prune(&items, attempted);
    linearize(p, root_children)
}

/// Rebuilds the display order from cached records: index them by id (later
/// rows replacing earlier ones) and run the same pre-order walk the fresh
/// path uses, depths assigned anew by the walk.
pub fn order_cached_comments(cached: Vec<Record>, root_children: &Vec<u64>) -> (out: Vec<Record>)
    ensures
        views_of(out@) == walk_list(index_records(views_of(cached@)), root_children@, 0).0,
{
    let ghost orig = cached@;
    let mut cached = cached;
    let mut arena = RecordArena::new();
    let ghost mut i: int = 0;
    proof {
        assert(views_of(orig).take(0) =~= Seq::<RecordView>::empty());
        assert(arena@ =~= index_records(views_of(orig).take(0)));
    }
    while cached.len() > 0
        invariant
            arena.wf(),
            0 <= i <= orig.len(),
            cached@ == orig.skip(i),
            arena@ == index_records(views_of(orig).take(i)),
        decreases orig.len() - i,
    {
        let r = cached.remove(0);
        proof {
            assert(r == orig[i]);
            assert(cached@ =~= orig.skip(i + 1));
        }
        let ghost prev = arena@;
        arena.insert(r);
        proof {
            let vs = views_of(orig).take(i + 1);
            assert(vs.drop_last() =~= views_of(orig).take(i));
            assert(vs.last() == orig[i]@);
            assert(arena@ == index_records(vs));
        }
        proof {
            i = i + 1;
        }
    }
    proof {
        assert(i == orig.len());
        assert(views_of(orig).take(orig.len() as int) =~= views_of(orig));
        assert(arena@ == index_records(views_of(orig)));
    }
    linearize(arena, root_children)
}

/// The id of the first record whose children list names `id`, scanning the
/// sequence in order.
pub open spec fn first_parent(s: Seq<RecordView>, id: u64) -> Option<u64>
    decreases s.len(),
{
    if s.len() == 0 {
        None
    } else if s[0].children.contains(id) {
        Some(s[0].id)
    } else {
        first_parent(s.drop_first(), id)
    }
}

/// Finds the parent of `comment_id` in a linearized record sequence: the
/// first record listing it as a child, `None` for a root-level record.
pub fn find_parent_id(records: &Vec<Record>, comment_id: u64) -> (r: Option<u64>)
    ensures
        r == first_parent(views_of(records@), comment_id),
{
    let ghost vs = views_of(records@);
    proof {
        assert(vs.skip(0) =~= vs);
    }
    let n = records.len();
    let mut i: usize = 0;
    while i < n
        invariant
            n == records@.len(),
            0 <= i <= n,
            vs == views_of(records@),
            first_parent(vs, comment_id) == first_parent(vs.skip(i as int), comment_id),
        decreases n - i,
    {
        proof {
            assert(vs.skip(i as int)[0] == records@[i as int]@);
            assert(vs.skip(i as int).drop_first() =~= vs.skip(i + 1 as int));
        }
        if ids_contain(&records[i].children, comment_id) {
            return Some(records[i].id);
        }
        i += 1;
    }
    proof {
        assert(vs.skip(n as int) =~= Seq::<RecordView>::empty());
    }
    None
}

} // verus!
