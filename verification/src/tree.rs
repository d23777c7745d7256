//! Tree-drawing context for nested comment display: which indentation
//! levels still have siblings coming, and the character prefixes built from
//! that.

use vstd::prelude::*;
use crate::records::{Record, RecordView};
use crate::linearize::views_of;
use crate::timefmt::chars_to_string;

verus! {

/// Whether, scanning the visible entries from position `from` on, a comment
/// at exactly `cd` appears before one shallower than `cd`: the tree then
/// continues at that level.
pub open spec fn more_at_depth(
    cmts: Seq<RecordView>,
    vis: Seq<usize>,
    from: int,
    cd: nat,
) -> bool
    decreases vis.len() - from,
{
    if from < 0 || from >= vis.len() {
        false
    } else {
        let d = cmts[vis[from] as int].depth;
        if d == cd {
            true
        } else if d < cd {
            false
        } else {
            more_at_depth(cmts, vis, from + 1, cd)
        }
    }
}

/// For each visible comment, one flag per indentation level 0..=depth:
/// whether more entries follow at that level before the tree steps back out.
/// The display layer uses the flags to choose between a continuation bar and
/// blank space.
#[verifier::loop_isolation(false)]
pub fn compute_tree_context(comments: &Vec<Record>, visible_indices: &Vec<usize>) -> (r: Vec<
    Vec<bool>,
>)
    requires
        forall|v: int|
            0 <= v < visible_indices@.len() ==> (#[trigger] visible_indices@[v]) < comments@.len(),
        forall|v: int|
            0 <= v < visible_indices@.len() ==> comments@[#[trigger] visible_indices@[v] as int].depth
                < usize::MAX,
    ensures
        r@.len() == visible_indices@.len(),
        forall|v: int|
            0 <= v < r@.len() ==> (#[trigger] r@[v])@.len() == views_of(
                comments@,
            )[visible_indices@[v] as int].depth + 1,
        forall|v: int, cd: int|
            0 <= v < r@.len() && 0 <= cd < r@[v]@.len() ==> (#[trigger] r@[v]@[cd]) == more_at_depth(
                views_of(comments@),
                visible_indices@,
                v + 1,
                cd as nat,
            ),
{
    let ghost cmts = views_of(comments@);
    let ghost vis = visible_indices@;
    let n = visible_indices.len();
    let mut r: Vec<Vec<bool>> = Vec::new();
    let mut v: usize = 0;
    while v < n
        invariant
            0 <= v <= n,
            r@.len() == v,
            forall|k: int|
                0 <= k < v ==> (#[trigger] r@[k])@.len() == cmts[vis[k] as int].depth + 1,
            forall|k: int, cd: int|
                0 <= k < v && 0 <= cd < r@[k]@.len() ==> (#[trigger] r@[k]@[cd]) == more_at_depth(
                    cmts,
                    vis,
                    k + 1,
                    cd as nat,
                ),
        decreases n - v,
    {
        let depth = comments[visible_indices[v]].depth;
        proof {
            assert(cmts[vis[v as int] as int].depth == depth as nat);
        }
        let mut row: Vec<bool> = Vec::new();
        let mut cd: usize = 0;
        while cd <= depth
            invariant
                0 <= cd <= depth + 1,
                depth < usize::MAX,
                row@.len() == cd,
                forall|c: int|
                    0 <= c < cd ==> (#[trigger] row@[c]) == more_at_depth(cmts, vis, v + 1, c as nat),
            decreases depth + 1 - cd,
        {
            // scan forward for the next entry at or above this level
            let mut w: usize = v + 1;
            let mut flag = false;
            let mut settled = false;
            while w < n && !settled
                invariant
                    v + 1 <= w <= n,
                    !settled ==> flag == false,
                    !settled ==> more_at_depth(cmts, vis, v + 1, cd as nat) == more_at_depth(
                        cmts,
                        vis,
                        w as int,
                        cd as nat,
                    ),
                    settled ==> flag == more_at_depth(cmts, vis, v + 1, cd as nat),
                decreases n - w,
            {
                let fd = comments[visible_indices[w]].depth;
                proof {
                    assert(cmts[vis[w as int] as int].depth == fd as nat);
                }
                if fd == cd {
                    flag = true;
                    settled = true;
                } else if fd < cd {
                    flag = false;
                    settled = true;
                }
                w += 1;
            }
            proof {
                if !settled {
                    assert(more_at_depth(cmts, vis, n as int, cd as nat) == false);
                }
                assert(flag == more_at_depth(cmts, vis, v + 1, cd as nat));
            }
            row.push(flag);
            cd += 1;
        }
        r.push(row);
        v += 1;
    }
    r
}

/// One four-column continuation segment: a bar when the level continues,
/// blank space when it does not.
pub open spec fn bar_segment(on: bool) -> Seq<char> {
    if on {
        seq![' ', '\u{2502}', ' ', ' ']
    } else {
        seq![' ', ' ', ' ', ' ']
    }
}

/// The flag of level `d`, absent levels counting as ended.
pub open spec fn level_flag(has: Seq<bool>, d: int) -> bool {
    if 0 <= d < has.len() {
        has[d]
    } else {
        false
    }
}

/// The continuation segments of levels `d` up to (excluding) `upto`.
pub open spec fn bar_segments(has: Seq<bool>, d: int, upto: int) -> Seq<char>
    decreases upto - d,
{
    if d >= upto {
        Seq::<char>::empty()
    } else {
        bar_segment(level_flag(has, d)) + bar_segments(has, d + 1, upto)
    }
}

fn flag_at(has: &Vec<bool>, d: usize) -> (r: bool)
    ensures
        r == level_flag(has@, d as int),
{
    if d < has.len() {
        has[d]
    } else {
        false
    }
}

/// Pushes the continuation segments of levels 1 up to (excluding) `upto`.
fn push_bar_segments(out: &mut Vec<char>, has: &Vec<bool>, upto: usize)
    ensures
        final(out)@ == old(out)@ + bar_segments(has@, 1, upto as int),
{
    let ghost o0 = out@;
    let mut d: usize = 1;
    proof {
        if upto < 1 {
            assert(bar_segments(has@, 1, upto as int) =~= Seq::<char>::empty());
        }
        assert(o0 + Seq::<char>::empty() =~= o0);
    }
    while d < upto
        invariant
            1 <= d,
            upto >= 1 ==> d <= upto,
            out@ + bar_segments(has@, d as int, upto as int) == o0 + bar_segments(
                has@,
                1,
                upto as int,
            ),
        decreases upto - d,
    {
        let ghost before = out@;
        let on = flag_at(has, d);
        if on {
            out.push(' ');
            out.push('\u{2502}');
            out.push(' ');
            out.push(' ');
        } else {
            out.push(' ');
            out.push(' ');
            out.push(' ');
            out.push(' ');
        }
        proof {
            assert(out@ =~= before + bar_segment(level_flag(has@, d as int)));
            assert(before + (bar_segment(level_flag(has@, d as int)) + bar_segments(
                has@,
                d + 1,
                upto as int,
            )) =~= out@ + bar_segments(has@, d + 1, upto as int));
        }
        d += 1;
    }
    proof {
        assert(bar_segments(has@, d as int, upto as int) =~= Seq::<char>::empty());
        assert(out@ + Seq::<char>::empty() =~= out@);
    }
}

/// What the meta-line prefix of a comment looks like: nothing at the root;
/// otherwise the ancestors' continuation bars, then a tee when more siblings
/// follow at this depth and an elbow when this is the last one.
pub open spec fn meta_prefix(depth: nat, has: Seq<bool>) -> Seq<char> {
    if depth == 0 {
        Seq::<char>::empty()
    } else {
        bar_segments(has, 1, depth as int) + (if level_flag(has, depth as int) {
            seq![' ', '\u{251c}', '\u{2500}', ' ']
        } else {
            seq![' ', '\u{2514}', '\u{2500}', ' ']
        })
    }
}

/// The tree prefix for a comment's meta line (author and time).
pub fn build_meta_tree_prefix(depth: usize, has_more_at_depth: &Vec<bool>) -> (r: String)
    ensures
        r@ == meta_prefix(depth as nat, has_more_at_depth@),
{
    let mut out: Vec<char> = Vec::new();
    if depth == 0 {
        proof {
            assert(out@ =~= meta_prefix(depth as nat, has_more_at_depth@));
        }
        return chars_to_string(out);
    }
    push_bar_segments(&mut out, has_more_at_depth, depth);
    let ghost mid = out@;
    if flag_at(has_more_at_depth, depth) {
        out.push(' ');
        out.push('\u{251c}');
        out.push('\u{2500}');
        out.push(' ');
    } else {
        out.push(' ');
        out.push('\u{2514}');
        out.push('\u{2500}');
        out.push(' ');
    }
    proof {
        assert(Seq::<char>::empty() + bar_segments(has_more_at_depth@, 1, depth as int) =~= mid);
        assert(out@ =~= meta_prefix(depth as nat, has_more_at_depth@));
    }
    chars_to_string(out)
}

/// What the prefix of a comment's text lines looks like: the continuation
/// bars of every level through the comment's own depth, then its own bar
/// when it has children to connect to, blank space otherwise.
pub open spec fn text_prefix(depth: nat, has: Seq<bool>, has_children: bool) -> Seq<char> {
    bar_segments(has, 1, depth + 1 as int) + bar_segment(has_children)
}

/// The tree prefix for a comment's wrapped text lines.
pub fn build_text_prefix(depth: usize, has_more_at_depth: &Vec<bool>, has_children: bool) -> (r:
    String)
    requires
        depth < usize::MAX,
    ensures
        r@ == text_prefix(depth as nat, has_more_at_depth@, has_children),
{
    let mut out: Vec<char> = Vec::new();
    push_bar_segments(&mut out, has_more_at_depth, depth + 1);
    let ghost mid = out@;
    if has_children {
        out.push(' ');
        out.push('\u{2502}');
        out.push(' ');
        out.push(' ');
    } else {
        out.push(' ');
        out.push(' ');
        out.push(' ');
        out.push(' ');
    }
    proof {
        assert(Seq::<char>::empty() + bar_segments(has_more_at_depth@, 1, depth + 1) =~= mid);
        assert(out@ =~= text_prefix(depth as nat, has_more_at_depth@, has_children));
    }
    chars_to_string(out)
}

/// What the prefix of the blank line after a comment looks like: the
/// continuation bars alone, plus a short bar when the comment has children.
pub open spec fn empty_line_prefix(depth: nat, has: Seq<bool>, has_children: bool) -> Seq<char> {
    bar_segments(has, 1, depth + 1 as int) + (if has_children {
        seq![' ', '\u{2502}']
    } else {
        Seq::<char>::empty()
    })
}

/// The tree prefix for the spacing line after a comment.
pub fn build_empty_line_prefix(depth: usize, has_more_at_depth: &Vec<bool>, has_children: bool) -> (r:
    String)
    requires
        depth < usize::MAX,
    ensures
        r@ == empty_line_prefix(depth as nat, has_more_at_depth@, has_children),
{
    let mut out: Vec<char> = Vec::new();
    push_bar_segments(&mut out, has_more_at_depth, depth + 1);
    let ghost mid = out@;
    if has_children {
        out.push(' ');
        out.push('\u{2502}');
    }
    proof {
        assert(Seq::<char>::empty() + bar_segments(has_more_at_depth@, 1, depth + 1) =~= mid);
        assert(out@ =~= empty_line_prefix(depth as nat, has_more_at_depth@, has_children));
    }
    chars_to_string(out)
}

} // verus!
