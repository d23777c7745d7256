//! The frontier walker: breadth-first, depth-bounded traversal of a reply
//! tree, one fan-out/fan-in level at a time.
//!
//! Network work never happens here. The caller reads the current frontier,
//! fetches every id in it however it likes (concurrently in the real
//! application), and hands the outcomes back to `absorb_level`, which does
//! all the bookkeeping: the attempt set grows by the whole frontier,
//! tombstoned items are discarded, retained items are stored, and the next
//! frontier is the concatenation of the retained items' children — but only
//! while the depth bound allows another level.

use vstd::prelude::*;
use vstd::seq_lib::lemma_no_dup_in_concat;
use crate::records::{Item, ItemView, RecordData, item_data};
use crate::arena::{RecordArena, IdSet};

verus! {

/// The views of a sequence of fetch outcomes.
pub open spec fn outcome_views(s: Seq<Option<Item>>) -> Seq<Option<ItemView>> {
    s.map_values(
        |o: Option<Item>|
            match o {
                Some(it) => Some(it@),
                None => None,
            },
    )
}

/// A fetch outcome the traversal keeps: a successful item that is not
/// tombstoned.
pub open spec fn retained(o: Option<ItemView>) -> bool {
    match o {
        Some(it) => !it.deleted && !it.dead,
        None => false,
    }
}

/// The retained-item map after one level: each frontier id whose outcome is
/// retained is stored (a later duplicate replaces an earlier one), failures
/// and tombstones leave the map alone.
pub open spec fn absorb_items(
    m: Map<u64, RecordData>,
    ids: Seq<u64>,
    res: Seq<Option<ItemView>>,
) -> Map<u64, RecordData>
    decreases ids.len(),
{
    if ids.len() == 0 {
        m
    } else {
        let m1 = if retained(res[0]) {
            m.insert(ids[0], item_data(res[0]->0))
        } else {
            m
        };
        absorb_items(m1, ids.drop_first(), res.drop_first())
    }
}

/// The identifiers the next level must fetch: the children of every
/// retained item, in frontier order, in each item's stored order.
pub open spec fn next_frontier(ids: Seq<u64>, res: Seq<Option<ItemView>>) -> Seq<u64>
    decreases ids.len(),
{
    if ids.len() == 0 {
        Seq::<u64>::empty()
    } else {
        let head = if retained(res[0]) {
            res[0]->0.children
        } else {
            Seq::<u64>::empty()
        };
        head + next_frontier(ids.drop_first(), res.drop_first())
    }
}

/// Outcome `i` of a level is retained and names `x` among its children.
pub open spec fn names_child(res: Seq<Option<ItemView>>, i: int, x: u64) -> bool {
    0 <= i < res.len() && retained(res[i]) && res[i]->0.children.contains(x)
}

/// The next frontier holds exactly the ids the level's retained items name.
pub proof fn lemma_next_frontier_membership(ids: Seq<u64>, res: Seq<Option<ItemView>>, x: u64)
    requires
        res.len() == ids.len(),
    ensures
        next_frontier(ids, res).contains(x) <==> exists|i: int| names_child(res, i, x),
    decreases ids.len(),
{
    if ids.len() == 0 {
        if next_frontier(ids, res).contains(x) {
            assert(false);
        }
        if exists|i: int| names_child(res, i, x) {
            let i = choose|i: int| names_child(res, i, x);
            assert(false);
        }
    } else {
        let head = if retained(res[0]) {
            res[0]->0.children
        } else {
            Seq::<u64>::empty()
        };
        let rest = next_frontier(ids.drop_first(), res.drop_first());
        lemma_next_frontier_membership(ids.drop_first(), res.drop_first(), x);
        assert forall|i: int| names_child(res.drop_first(), i, x) == (0 <= i && names_child(
            res,
            i + 1,
            x,
        )) by {
            if 0 <= i < res.drop_first().len() {
                assert(res.drop_first()[i] == res[i + 1]);
            }
        }
        if next_frontier(ids, res).contains(x) {
            let k = choose|k: int|
                0 <= k < next_frontier(ids, res).len() && next_frontier(ids, res)[k] == x;
            if k < head.len() {
                assert(head[k] == x);
                assert(names_child(res, 0, x));
            } else {
                assert(rest[k - head.len()] == x);
                assert(rest.contains(x));
                let i = choose|i: int| names_child(res.drop_first(), i, x);
                assert(names_child(res, i + 1, x));
            }
        }
        if exists|i: int| names_child(res, i, x) {
            let i = choose|i: int| names_child(res, i, x);
            if i == 0 {
                let k = choose|k: int| 0 <= k < head.len() && head[k] == x;
                assert(next_frontier(ids, res)[k] == x);
            } else {
                assert(names_child(res.drop_first(), i - 1, x));
                assert(rest.contains(x));
                let k = choose|k: int| 0 <= k < rest.len() && rest[k] == x;
                assert(next_frontier(ids, res)[head.len() + k] == x);
            }
        }
    }
}

/// A level's outcomes are tree-shaped with respect to the ids fetched so
/// far (`att`) and its own frontier (`ids`): each retained item's children
/// array repeats no id, no two items share a child, and no child was
/// fetched before or is being fetched now. This is where the children
/// arrays having no cycles and no shared children enters: an input naming
/// one id under two parents is not tree-shaped, and the walker — which
/// deduplicates nothing — fetches that id twice.
pub open spec fn level_tree_shaped(att: Set<u64>, ids: Seq<u64>, res: Seq<Option<ItemView>>) -> bool {
    &&& res.len() == ids.len()
    &&& forall|i: int, x: u64| #[trigger]
        names_child(res, i, x) ==> !att.contains(x) && !ids.contains(x)
    &&& forall|i: int|
        0 <= i < res.len() && retained(#[trigger] res[i]) ==> res[i]->0.children.no_duplicates()
    &&& forall|i: int, j: int, x: u64|
        #![trigger names_child(res, i, x), names_child(res, j, x)]
        i != j && names_child(res, i, x) ==> !names_child(res, j, x)
}

/// At-most-one-fetch, one level: if no frontier id was attempted before or
/// repeats, and the level is tree-shaped, then the next frontier has no
/// repeats and is disjoint from everything attempted by the end of the
/// level. `lemma_run_at_most_one_fetch` applies this level by level to a
/// whole traversal.
pub proof fn lemma_at_most_one_fetch(att: Set<u64>, ids: Seq<u64>, res: Seq<Option<ItemView>>)
    requires
        ids.no_duplicates(),
        forall|i: int| 0 <= i < ids.len() ==> !att.contains(#[trigger] ids[i]),
        level_tree_shaped(att, ids, res),
    ensures
        next_frontier(ids, res).no_duplicates(),
        forall|x: u64|
            next_frontier(ids, res).contains(x) ==> !att.union(ids.to_set()).contains(x),
    decreases ids.len(),
{
    assert forall|x: u64| next_frontier(ids, res).contains(x) implies !att.union(
        ids.to_set(),
    ).contains(x) by {
        lemma_next_frontier_membership(ids, res, x);
        let i = choose|i: int| names_child(res, i, x);
        assert(!att.contains(x) && !ids.contains(x));
        if ids.to_set().contains(x) {
            assert(ids.contains(x));
        }
    }
    if ids.len() > 0 {
        let head = if retained(res[0]) {
            res[0]->0.children
        } else {
            Seq::<u64>::empty()
        };
        let ids1 = ids.drop_first();
        let res1 = res.drop_first();
        let rest = next_frontier(ids1, res1);
        assert forall|i: int, x: u64| names_child(res1, i, x) == (0 <= i && names_child(
            res,
            i + 1,
            x,
        )) by {
            if 0 <= i < res1.len() {
                assert(res1[i] == res[i + 1]);
            }
        }
        assert forall|i: int| 0 <= i < ids1.len() implies !att.contains(#[trigger] ids1[i]) by {
            assert(ids1[i] == ids[i + 1]);
        }
        assert forall|i: int, x: u64| #[trigger] names_child(res1, i, x) implies !att.contains(x)
            && !ids1.contains(x) by {
            assert(names_child(res, i + 1, x));
            if ids1.contains(x) {
                let k = choose|k: int| 0 <= k < ids1.len() && ids1[k] == x;
                assert(ids[k + 1] == x);
                assert(ids.contains(x));
            }
        }
        assert forall|i: int|
            0 <= i < res1.len() && retained(#[trigger] res1[i]) implies res1[i]->0.children.no_duplicates() by {
            assert(res1[i] == res[i + 1]);
        }
        assert forall|i: int, j: int, x: u64|
            #![trigger names_child(res1, i, x), names_child(res1, j, x)]
            i != j && names_child(res1, i, x) implies !names_child(res1, j, x) by {
            assert(names_child(res, i + 1, x));
            if names_child(res1, j, x) {
                assert(names_child(res, j + 1, x));
            }
        }
        assert(level_tree_shaped(att, ids1, res1));
        lemma_at_most_one_fetch(att, ids1, res1);
        if retained(res[0]) {
            assert(head.no_duplicates());
        }
        assert forall|a: int, b: int|
            0 <= a < head.len() && 0 <= b < rest.len() implies head[a] != rest[b] by {
            assert(head.contains(head[a]));
            assert(names_child(res, 0, head[a]));
            assert(rest.contains(rest[b]));
            lemma_next_frontier_membership(ids1, res1, rest[b]);
            let i = choose|i: int| names_child(res1, i, rest[b]);
            assert(names_child(res, i + 1, rest[b]));
            if head[a] == rest[b] {
                assert(!names_child(res, i + 1, head[a]));
                assert(false);
            }
        }
        lemma_no_dup_in_concat(head, rest);
        assert(next_frontier(ids, res) == head + rest);
    }
}

/// The frontier a traversal fetches at level `k`, given the root children
/// and each level's outcomes: level 0 fetches the root children, each
/// later level whatever the previous level's retained items named.
pub open spec fn run_frontier(roots: Seq<u64>, levels: Seq<Seq<Option<ItemView>>>, k: int) -> Seq<
    u64,
>
    decreases k,
{
    if k <= 0 {
        roots
    } else {
        next_frontier(run_frontier(roots, levels, k - 1), levels[k - 1])
    }
}

/// Every id such a traversal has fetched before level `k` begins.
pub open spec fn run_attempted(roots: Seq<u64>, levels: Seq<Seq<Option<ItemView>>>, k: int) -> Set<
    u64,
>
    decreases k,
{
    if k <= 0 {
        Set::<u64>::empty()
    } else {
        run_attempted(roots, levels, k - 1).union(
            run_frontier(roots, levels, k - 1).to_set(),
        )
    }
}

/// Whatever an earlier level fetched is attempted by every later level.
proof fn lemma_run_frontier_in_attempted(
    roots: Seq<u64>,
    levels: Seq<Seq<Option<ItemView>>>,
    j: int,
    k: int,
)
    requires
        0 <= j < k,
    ensures
        run_frontier(roots, levels, j).to_set().subset_of(run_attempted(roots, levels, k)),
    decreases k,
{
    if j < k - 1 {
        lemma_run_frontier_in_attempted(roots, levels, j, k - 1);
    }
}

/// At-most-one-fetch, whole traversal: if the root children repeat no id
/// and every level's outcomes are tree-shaped with respect to all ids
/// fetched up to that point, then every frontier of the run is free of
/// repeats and disjoint from every other frontier — no identifier is
/// fetched from the gateway more than once in the whole traversal.
pub proof fn lemma_run_at_most_one_fetch(
    roots: Seq<u64>,
    levels: Seq<Seq<Option<ItemView>>>,
    k: int,
)
    requires
        roots.no_duplicates(),
        forall|j: int|
            0 <= j < levels.len() ==> level_tree_shaped(
                run_attempted(roots, levels, j),
                run_frontier(roots, levels, j),
                #[trigger] levels[j],
            ),
        0 <= k <= levels.len(),
    ensures
        run_frontier(roots, levels, k).no_duplicates(),
        run_frontier(roots, levels, k).to_set().disjoint(run_attempted(roots, levels, k)),
        forall|j: int|
            0 <= j < k ==> run_frontier(roots, levels, j).to_set().disjoint(
                #[trigger] run_frontier(roots, levels, k).to_set(),
            ),
    decreases k,
{
    if k == 0 {
        assert(run_frontier(roots, levels, 0) == roots);
        assert(run_attempted(roots, levels, 0) == Set::<u64>::empty());
    } else {
        lemma_run_at_most_one_fetch(roots, levels, k - 1);
        let att = run_attempted(roots, levels, k - 1);
        let ids = run_frontier(roots, levels, k - 1);
        let res = levels[k - 1];
        assert(level_tree_shaped(att, ids, res));
        assert forall|i: int| 0 <= i < ids.len() implies !att.contains(#[trigger] ids[i]) by {
            assert(ids.to_set().contains(ids[i]));
        }
        lemma_at_most_one_fetch(att, ids, res);
        let next = run_frontier(roots, levels, k);
        assert(next == next_frontier(ids, res));
        assert(run_attempted(roots, levels, k) == att.union(ids.to_set()));
        assert forall|x: u64| next.to_set().contains(x) implies !run_attempted(
            roots,
            levels,
            k,
        ).contains(x) by {
            assert(next.contains(x));
        }
        assert forall|j: int| 0 <= j < k implies run_frontier(roots, levels, j).to_set().disjoint(
            #[trigger] run_frontier(roots, levels, k).to_set(),
        ) by {
            lemma_run_frontier_in_attempted(roots, levels, j, k);
            assert forall|x: u64| run_frontier(roots, levels, j).to_set().contains(x)
                implies !next.to_set().contains(x) by {
                assert(run_attempted(roots, levels, k).contains(x));
            }
        }
    }
}

/// One traversal in progress.
pub struct Traversal {
    items: RecordArena,
    attempted: IdSet,
    frontier: Vec<u64>,
    depth: usize,
    max_depth: usize,
}

impl Traversal {
    pub closed spec fn wf(&self) -> bool {
        self.items.wf()
    }

    pub closed spec fn items_view(&self) -> Map<u64, RecordData> {
        self.items@
    }

    pub closed spec fn attempted_view(&self) -> Set<u64> {
        self.attempted@
    }

    pub closed spec fn frontier_view(&self) -> Seq<u64> {
        self.frontier@
    }

    pub closed spec fn depth_now(&self) -> nat {
        self.depth as nat
    }

    pub closed spec fn depth_bound(&self) -> nat {
        self.max_depth as nat
    }

    /// A traversal still has work while its frontier is non-empty; the depth
    /// gate is applied when a level is absorbed, so a frontier only exists
    /// within the bound.
    pub open spec fn active(&self) -> bool {
        self.frontier_view().len() > 0
    }

    /// Starts a traversal from the root's children, tagged depth 0.
    pub fn new(root_children: Vec<u64>, max_depth: usize) -> (r: Self)
        ensures
            r.wf(),
            r.items_view() == Map::<u64, RecordData>::empty(),
            r.attempted_view() == Set::<u64>::empty(),
            r.frontier_view() == root_children@,
            r.depth_now() == 0,
            r.depth_bound() == max_depth as nat,
    {
        Traversal {
            items: RecordArena::new(),
            attempted: IdSet::new(),
            frontier: root_children,
            depth: 0,
            max_depth,
        }
    }

    pub fn is_active(&self) -> (r: bool)
        ensures
            r == self.active(),
    {
        self.frontier.len() > 0
    }

    /// The identifiers the caller must fetch for the current level.
    pub fn frontier_ids(&self) -> (r: &Vec<u64>)
        ensures
            r@ == self.frontier_view(),
    {
        &self.frontier
    }

    /// Folds one level's fan-in back into the traversal. `results[i]` is the
    /// outcome of fetching `frontier[i]`: `None` for any failure (the node
    /// then behaves as absent downstream), `Some` for a retrieved item,
    /// which the caller has checked carries the requested id.
    pub fn absorb_level(&mut self, results: Vec<Option<Item>>)
        requires
            old(self).wf(),
            results@.len() == old(self).frontier_view().len(),
            forall|i: int|
                0 <= i < results@.len() ==> ((#[trigger] results@[i]) matches Some(it) ==> it.id
                    == old(self).frontier_view()[i]),
        ensures
            final(self).wf(),
            final(self).attempted_view() == old(self).attempted_view().union(
                old(self).frontier_view().to_set(),
            ),
            final(self).items_view() == absorb_items(
                old(self).items_view(),
                old(self).frontier_view(),
                outcome_views(results@),
            ),
            final(self).frontier_view() == if old(self).depth_now() < old(self).depth_bound() {
                next_frontier(old(self).frontier_view(), outcome_views(results@))
            } else {
                Seq::<u64>::empty()
            },
            final(self).depth_now() == if old(self).depth_now() < old(self).depth_bound() {
                old(self).depth_now() + 1
            } else {
                old(self).depth_now()
            },
            final(self).depth_bound() == old(self).depth_bound(),
    {
        let ghost ids = self.frontier@;
        let ghost res = outcome_views(results@);
        let ghost att0 = self.attempted@;
        let ghost m0 = self.items@;
        let expand = self.depth < self.max_depth;
        let mut results = results;
        let mut next: Vec<u64> = Vec::new();
        let n = self.frontier.len();
        let mut i: usize = 0;
        proof {
            assert(ids.skip(0) =~= ids);
            assert(res.skip(0) =~= res);
            assert(att0.union(ids.take(0).to_set()) =~= att0) by {
                assert(forall|x: u64| !ids.take(0).contains(x));
            }
        }
        while i < n
            invariant
                self.wf(),
                n == ids.len(),
                res.len() == ids.len(),
                0 <= i <= n,
                self.frontier@ == ids,
                results@.len() == n - i,
                outcome_views(results@) == res.skip(i as int),
                forall|k: int|
                    0 <= k < results@.len() ==> ((#[trigger] results@[k]) matches Some(it)
                        ==> it.id == ids.skip(i as int)[k]),
                self.attempted@ == att0.union(ids.take(i as int).to_set()),
                absorb_items(m0, ids, res) == absorb_items(self.items@, ids.skip(i as int), res.skip(i as int)),
                expand ==> next_frontier(ids, res) == next@ + next_frontier(
                    ids.skip(i as int),
                    res.skip(i as int),
                ),
                !expand ==> next@ == Seq::<u64>::empty(),
                self.depth == old(self).depth,
                self.max_depth == old(self).max_depth,
            decreases n - i,
        {
            let id = self.frontier[i];
            self.attempted.insert(id);
            proof {
                assert(ids.take(i + 1 as int) =~= ids.take(i as int).push(id));
                assert forall|x: u64| #[trigger] ids.take(i + 1 as int).to_set().contains(x)
                    == ids.take(i as int).to_set().insert(id).contains(x) by {
                    if ids.take(i + 1 as int).to_set().contains(x) {
                        let k = choose|k: int|
                            0 <= k < i + 1 && #[trigger] ids.take(i + 1 as int)[k] == x;
                        if k < i {
                            assert(ids.take(i as int)[k] == x);
                        }
                    }
                    if ids.take(i as int).to_set().contains(x) {
                        let k = choose|k: int| 0 <= k < i && #[trigger] ids.take(i as int)[k] == x;
                        assert(ids.take(i + 1 as int)[k] == x);
                    }
                    if x == id {
                        assert(ids.take(i + 1 as int)[i as int] == x);
                    }
                }
                assert(ids.take(i + 1 as int).to_set() =~= ids.take(i as int).to_set().insert(id));
                assert(self.attempted@ =~= att0.union(ids.take(i + 1 as int).to_set()));
            }
            let ghost pre_results = results@;
            let outcome = results.remove(0);
            proof {
                assert(outcome_views(pre_results)[0] == res.skip(i as int)[0]);
                assert(res[i as int] == match outcome {
                    Some(it) => Some(it@),
                    None => None::<ItemView>,
                }) by {
                    assert(res.skip(i as int)[0] == res[i as int]);
                    assert(outcome_views(pre_results)[0] == match pre_results[0] {
                        Some(it) => Some(it@),
                        None => None::<ItemView>,
                    });
                }
                assert(ids.skip(i as int)[0] == ids[i as int]);
                assert(ids.skip(i as int).drop_first() =~= ids.skip(i + 1 as int));
                assert(res.skip(i as int)[0] == res[i as int]);
                assert(res.skip(i as int).drop_first() =~= res.skip(i + 1 as int));
                assert(outcome_views(results@) =~= res.skip(i + 1 as int)) by {
                    assert(results@ == pre_results.remove(0));
                    assert forall|k: int| 0 <= k < results@.len() implies outcome_views(results@)[k]
                        == res.skip(i + 1 as int)[k] by {
                        assert(results@[k] == pre_results[k + 1]);
                        assert(outcome_views(pre_results)[k + 1] == res.skip(i as int)[k + 1]);
                    }
                }
                assert forall|k: int| 0 <= k < results@.len() implies ((#[trigger] results@[k]) matches Some(
                    it,
                ) ==> it.id == ids.skip(i + 1 as int)[k]) by {
                    assert(results@[k] == pre_results[k + 1]);
                    assert(pre_results[k + 1] matches Some(it) ==> it.id == ids.skip(
                        i as int,
                    )[k + 1]);
                    assert(ids.skip(i as int)[k + 1] == ids.skip(i + 1 as int)[k]);
                }
            }
            let ghost m_here = self.items@;
            let ghost next_before = next@;
            match outcome {
                Some(item) => {
                    if !(item.deleted || item.dead) {
                        if expand {
                            let kid_count = item.children.len();
                            let mut j: usize = 0;
                            while j < kid_count
                                invariant
                                    kid_count == item.children@.len(),
                                    0 <= j <= kid_count,
                                    next@ == next_before + item.children@.take(j as int),
                                decreases kid_count - j,
                            {
                                next.push(item.children[j]);
                                proof {
                                    assert(next@ =~= next_before + item.children@.take(
                                        j + 1 as int,
                                    ));
                                }
                                j += 1;
                            }
                            proof {
                                assert(item.children@.take(kid_count as int) =~= item.children@);
                            }
                        }
                        let rec = item.into_record();
                        self.items.insert(rec);
                        proof {
                            assert(rec.id == item@.id);
                            assert(retained(res[i as int]));
                            assert(self.items@ == m_here.insert(ids[i as int], item_data(
                                res[i as int]->0,
                            )));
                        }
                    }
                },
                None => {},
            }
            proof {
                if retained(res[i as int]) {
                    assert(self.items@ == m_here.insert(ids[i as int], item_data(
                        res[i as int]->0,
                    )));
                    if expand {
                        assert(next@ == next_before + res[i as int]->0.children);
                    } else {
                        assert(next@ =~= next_before + Seq::<u64>::empty());
                    }
                } else {
                    assert(self.items@ == m_here);
                    assert(next@ =~= next_before + Seq::<u64>::empty());
                }
                assert(absorb_items(self.items@, ids.skip(i + 1 as int), res.skip(i + 1 as int))
                    == absorb_items(m_here, ids.skip(i as int), res.skip(i as int)));
                if expand {
                    assert(next_frontier(ids, res) == next@ + next_frontier(
                        ids.skip(i + 1 as int),
                        res.skip(i + 1 as int),
                    )) by {
                        assert(next_frontier(ids.skip(i as int), res.skip(i as int)) == (if retained(
                            res[i as int],
                        ) {
                            res[i as int]->0.children
                        } else {
                            Seq::<u64>::empty()
                        }) + next_frontier(ids.skip(i + 1 as int), res.skip(i + 1 as int)));
                        assert(next_frontier(ids, res) =~= next@ + next_frontier(
                            ids.skip(i + 1 as int),
                            res.skip(i + 1 as int),
                        ));
                    }
                }
            }
            i += 1;
        }
        proof {
            assert(ids.take(n as int) =~= ids);
            assert(ids.skip(n as int) =~= Seq::<u64>::empty());
            assert(res.skip(n as int) =~= Seq::<Option<ItemView>>::empty());
            assert(absorb_items(m0, ids, res) == self.items@);
        }
        if expand {
            proof {
                assert(next_frontier(ids, res) == next@ + Seq::<u64>::empty());
                assert(next@ + Seq::<u64>::empty() =~= next@);
            }
            self.frontier = next;
            self.depth = self.depth + 1;
        } else {
            self.frontier = Vec::new();
            proof {
                assert(self.frontier@ =~= Seq::<u64>::empty());
            }
        }
    }

    /// Hands the traversal's outcome over for linearization.
    pub fn into_parts(self) -> (r: (RecordArena, IdSet))
        ensures
            r.0.wf() == self.wf(),
            r.0@ == self.items_view(),
            r.1@ == self.attempted_view(),
    {
        (self.items, self.attempted)
    }
}

} // verus!
