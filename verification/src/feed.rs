//! Feed-listing logic: paging a feed's id list, deciding which ids still
//! need the network, and putting fetched stories back into the feed's own
//! order.

use vstd::prelude::*;
use crate::records::{Story, StoryView, clone_opt_string, copy_ids, ids_contain};
use crate::arena::IdSet;

verus! {

/// How many stories one feed page holds.
pub const PAGE_SIZE: usize = 30;

/// The half-open index range of one page within a feed of `total` ids: it
/// starts at `page * page_size` and runs for `page_size` entries, clipped to
/// the feed; a page past the end is empty.
pub fn page_bounds(total: usize, page: usize, page_size: usize) -> (r: (usize, usize))
    ensures
        r.0 == if page * page_size < total {
            page * page_size
        } else {
            total as int
        },
        r.1 == if r.0 + page_size < total {
            r.0 + page_size
        } else {
            total as int
        },
        r.0 <= r.1 <= total,
{
    let start = match page.checked_mul(page_size) {
        Some(p) => if p < total {
            p
        } else {
            total
        },
        None => total,
    };
    let end = match start.checked_add(page_size) {
        Some(e) => if e < total {
            e
        } else {
            total
        },
        None => total,
    };
    (start, end)
}

/// The ids of one page, in feed order.
pub fn slice_page(ids: &Vec<u64>, start: usize, end: usize) -> (r: Vec<u64>)
    requires
        start <= end <= ids@.len(),
    ensures
        r@ == ids@.subrange(start as int, end as int),
{
    let mut r: Vec<u64> = Vec::new();
    let mut i: usize = start;
    while i < end
        invariant
            start <= i <= end <= ids@.len(),
            r@ == ids@.subrange(start as int, i as int),
        decreases end - i,
    {
        r.push(ids[i]);
        proof {
            assert(r@ =~= ids@.subrange(start as int, i + 1 as int));
        }
        i += 1;
    }
    r
}

/// The ids of `ids` that `have` does not cover, in order.
pub open spec fn spec_missing(ids: Seq<u64>, have: Set<u64>) -> Seq<u64>
    decreases ids.len(),
{
    if ids.len() == 0 {
        Seq::<u64>::empty()
    } else {
        let rest = spec_missing(ids.drop_first(), have);
        if have.contains(ids[0]) {
            rest
        } else {
            seq![ids[0]] + rest
        }
    }
}

/// Selects the ids a request must still fetch: those the cache does not
/// hold, in their original order.
pub fn missing_ids(ids: &Vec<u64>, have: &IdSet) -> (r: Vec<u64>)
    ensures
        r@ == spec_missing(ids@, have@),
{
    let ghost all = ids@;
    let mut r: Vec<u64> = Vec::new();
    let n = ids.len();
    let mut i: usize = 0;
    proof {
        assert(all.skip(0) =~= all);
        assert(spec_missing(all, have@) =~= r@ + spec_missing(all.skip(0), have@));
    }
    while i < n
        invariant
            n == all.len(),
            ids@ == all,
            0 <= i <= n,
            spec_missing(all, have@) == r@ + spec_missing(all.skip(i as int), have@),
        decreases n - i,
    {
        proof {
            assert(all.skip(i as int)[0] == all[i as int]);
            assert(all.skip(i as int).drop_first() =~= all.skip(i + 1 as int));
        }
        let ghost r0 = r@;
        if !have.contains(ids[i]) {
            r.push(ids[i]);
            proof {
                assert(r@ =~= r0.push(all[i as int]));
                assert(r0 + (seq![all[i as int]] + spec_missing(all.skip(i + 1 as int), have@))
                    =~= r@ + spec_missing(all.skip(i + 1 as int), have@));
            }
        }
        i += 1;
    }
    proof {
        assert(all.skip(n as int) =~= Seq::<u64>::empty());
        assert(r@ + Seq::<u64>::empty() =~= r@);
    }
    r
}

/// The stories in `s` that carry `id`, in their order.
pub open spec fn stories_with_id(s: Seq<StoryView>, id: u64) -> Seq<StoryView>
    decreases s.len(),
{
    if s.len() == 0 {
        Seq::<StoryView>::empty()
    } else {
        let rest = stories_with_id(s.drop_first(), id);
        if s[0].id == id {
            seq![s[0]] + rest
        } else {
            rest
        }
    }
}

/// The stories in `s` whose id the reference list does not name, in their
/// order.
pub open spec fn stories_not_named(s: Seq<StoryView>, ids: Seq<u64>) -> Seq<StoryView>
    decreases s.len(),
{
    if s.len() == 0 {
        Seq::<StoryView>::empty()
    } else {
        let rest = stories_not_named(s.drop_first(), ids);
        if ids.contains(s[0].id) {
            rest
        } else {
            seq![s[0]] + rest
        }
    }
}

/// The stories picked by walking the reference ids left to right, each id
/// contributing its stories at its first occurrence only.
pub open spec fn stories_in_id_order(s: Seq<StoryView>, ids: Seq<u64>) -> Seq<StoryView>
    decreases ids.len(),
{
    if ids.len() == 0 {
        Seq::<StoryView>::empty()
    } else {
        stories_in_id_order(s, ids.drop_last()) + (if ids.drop_last().contains(ids.last()) {
            Seq::<StoryView>::empty()
        } else {
            stories_with_id(s, ids.last())
        })
    }
}

pub(crate) fn clone_story(s: &Story) -> (r: Story)
    ensures
        r@ == s@,
{
    Story {
        id: s.id,
        title: s.title.clone(),
        url: clone_opt_string(&s.url),
        score: s.score,
        author: s.author.clone(),
        created_at: s.created_at,
        descendants: s.descendants,
        children: copy_ids(&s.children),
    }
}

fn ids_prefix_contains(ids: &Vec<u64>, upto: usize, x: u64) -> (r: bool)
    requires
        upto <= ids@.len(),
    ensures
        r == ids@.take(upto as int).contains(x),
{
    let mut i: usize = 0;
    while i < upto
        invariant
            0 <= i <= upto <= ids@.len(),
            forall|k: int| 0 <= k < i ==> ids@[k] != x,
        decreases upto - i,
    {
        if ids[i] == x {
            proof {
                assert(ids@.take(upto as int)[i as int] == x);
            }
            return true;
        }
        i += 1;
    }
    proof {
        if ids@.take(upto as int).contains(x) {
            let k = choose|k: int| 0 <= k < upto && #[trigger] ids@.take(upto as int)[k] == x;
            assert(ids@[k] == x);
        }
    }
    false
}

/// Collects the stories with `id`, in story order.
fn collect_with_id(stories: &Vec<Story>, id: u64) -> (r: Vec<Story>)
    ensures
        r@.map_values(|st: Story| st@) == stories_with_id(
            stories@.map_values(|st: Story| st@),
            id,
        ),
{
    let ghost all = stories@.map_values(|st: Story| st@);
    let mut r: Vec<Story> = Vec::new();
    let n = stories.len();
    let mut i: usize = 0;
    proof {
        assert(all.skip(0) =~= all);
        assert(stories_with_id(all, id) =~= r@.map_values(|st: Story| st@) + stories_with_id(
            all.skip(0),
            id,
        ));
    }
    while i < n
        invariant
            n == stories@.len(),
            all == stories@.map_values(|st: Story| st@),
            0 <= i <= n,
            stories_with_id(all, id) == r@.map_values(|st: Story| st@) + stories_with_id(
                all.skip(i as int),
                id,
            ),
        decreases n - i,
    {
        proof {
            assert(all.skip(i as int)[0] == all[i as int]);
            assert(all[i as int] == stories@[i as int]@);
            assert(all.skip(i as int).drop_first() =~= all.skip(i + 1 as int));
        }
        let ghost r0 = r@.map_values(|st: Story| st@);
        if stories[i].id == id {
            let copy = clone_story(&stories[i]);
            r.push(copy);
            proof {
                assert(r@.map_values(|st: Story| st@) =~= r0.push(all[i as int]));
                assert(r0 + (seq![all[i as int]] + stories_with_id(all.skip(i + 1 as int), id))
                    =~= r0.push(all[i as int]) + stories_with_id(all.skip(i + 1 as int), id));
            }
        }
        i += 1;
    }
    proof {
        assert(all.skip(n as int) =~= Seq::<StoryView>::empty());
        assert(r@.map_values(|st: Story| st@) + Seq::<StoryView>::empty() =~= r@.map_values(
            |st: Story| st@,
        ));
    }
    r
}

/// Puts fetched stories back into the reference order of a feed's id list:
/// for each id, in list order and first occurrence only, its stories in
/// their held order; stories the list does not name follow at the end. This
/// is how a page mixing cache hits and fresh fetches regains the feed's
/// order.
#[verifier::loop_isolation(false)]
pub fn order_stories_by_ids(stories: Vec<Story>, ids: &Vec<u64>) -> (r: Vec<Story>)
    ensures
        r@.map_values(|st: Story| st@) == stories_in_id_order(
            stories@.map_values(|st: Story| st@),
            ids@,
        ) + stories_not_named(stories@.map_values(|st: Story| st@), ids@),
{
    let ghost all = stories@.map_values(|st: Story| st@);
    let mut r: Vec<Story> = Vec::new();
    let n = ids.len();
    let mut i: usize = 0;
    proof {
        assert(ids@.take(0) =~= Seq::<u64>::empty());
        assert(r@.map_values(|st: Story| st@) =~= stories_in_id_order(all, ids@.take(0)));
    }
    while i < n
        invariant
            0 <= i <= n,
            r@.map_values(|st: Story| st@) == stories_in_id_order(all, ids@.take(i as int)),
        decreases n - i,
    {
        let ghost r0 = r@.map_values(|st: Story| st@);
        proof {
            assert(ids@.take(i + 1 as int).drop_last() =~= ids@.take(i as int));
            assert(ids@.take(i + 1 as int).last() == ids@[i as int]);
        }
        if !ids_prefix_contains(ids, i, ids[i]) {
            let mut picked = collect_with_id(&stories, ids[i]);
            let m = picked.len();
            let ghost picked_views = picked@.map_values(|st: Story| st@);
            let mut j: usize = 0;
            while j < m
                invariant
                    0 <= j <= m,
                    m == picked@.len(),
                    picked@.map_values(|st: Story| st@) == picked_views,
                    r@.map_values(|st: Story| st@) == r0 + picked_views.take(j as int),
                decreases m - j,
            {
                let ghost before = r@.map_values(|st: Story| st@);
                let item = clone_story(&picked[j]);
                r.push(item);
                proof {
                    assert(r@.map_values(|st: Story| st@) =~= before.push(picked_views[j as int]));
                    assert(r0 + picked_views.take(j + 1 as int) =~= (r0 + picked_views.take(
                        j as int,
                    )).push(picked_views[j as int]));
                }
                j += 1;
            }
            proof {
                assert(picked_views.take(m as int) =~= picked_views);
                assert(r@.map_values(|st: Story| st@) =~= stories_in_id_order(
                    all,
                    ids@.take(i + 1 as int),
                ));
            }
        } else {
            proof {
                assert(r0 + Seq::<StoryView>::empty() =~= r0);
            }
        }
        i += 1;
    }
    proof {
        assert(ids@.take(n as int) =~= ids@);
    }
    // the stories the list never names, in their held order
    let ghost base = r@.map_values(|st: Story| st@);
    let sn = stories.len();
    let mut k: usize = 0;
    proof {
        assert(all.skip(0) =~= all);
        assert(base + stories_not_named(all, ids@) =~= base + stories_not_named(
            all.skip(0),
            ids@,
        ));
    }
    while k < sn
        invariant
            0 <= k <= sn,
            sn == stories@.len(),
            base + stories_not_named(all, ids@) == r@.map_values(|st: Story| st@)
                + stories_not_named(all.skip(k as int), ids@),
        decreases sn - k,
    {
        proof {
            assert(all.skip(k as int)[0] == all[k as int]);
            assert(all[k as int] == stories@[k as int]@);
            assert(all.skip(k as int).drop_first() =~= all.skip(k + 1 as int));
        }
        let ghost before = r@.map_values(|st: Story| st@);
        let named = ids_contain(ids, stories[k].id);
        if !named {
            let copy = clone_story(&stories[k]);
            r.push(copy);
            proof {
                assert(r@.map_values(|st: Story| st@) =~= before.push(all[k as int]));
                assert(before + (seq![all[k as int]] + stories_not_named(
                    all.skip(k + 1 as int),
                    ids@,
                )) =~= before.push(all[k as int]) + stories_not_named(all.skip(k + 1 as int), ids@));
            }
        }
        k += 1;
    }
    proof {
        assert(all.skip(sn as int) =~= Seq::<StoryView>::empty());
        assert(r@.map_values(|st: Story| st@) + Seq::<StoryView>::empty() =~= r@.map_values(
            |st: Story| st@,
        ));
    }
    r
}

} // verus!
