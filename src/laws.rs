use vstd::prelude::*;
use crate::geometry::{in_range, Pos2};
use crate::arena::{
    acyclic, attach, cnt, doomed, first_match, in_subtree, lemma_below_some_child, lemma_doomed_closed,
    lemma_cnt_mono, lemma_remap_children, mutual_inverse, remap_children, removed_from, renumber,
    tree_wf, BlockView, BlocksForArduino, lemma_rank_of, lemma_same_parents, parents, rank_of,
    reaches, repositioned,
};

verus! {

/// In every arena the operations leave behind, `attached_to` and `children`
/// are inverse relations: each operation keeps `wf`, and `wf` holds this.
pub proof fn law_links_are_inverse(a: &BlocksForArduino)
    requires
        a.wf(),
    ensures
        mutual_inverse(a.view_blocks()),
{
}

/// In every arena the operations leave behind, following parent links never
/// comes back to where it started: each operation keeps `wf`, and `wf` holds
/// a ranking under which every parent ranks below its children.
pub proof fn law_links_are_acyclic(a: &BlocksForArduino)
    requires
        a.wf(),
    ensures
        acyclic(a.view_blocks()),
{
}

/// Snapping a block that already sits in the first child slot of the parent
/// it would pick, attached to that parent, changes nothing.
pub proof fn law_snap_idempotent(s: Seq<BlockView>, h: int, tol: int, idx: int, j: int)
    requires
        tree_wf(s),
        0 <= idx < s.len(),
        first_match(s, h, tol, idx) == Some(j),
        s[idx].attached_to == Some(j as usize),
        s[idx].pos == s[j].slot(h, 0),
    ensures
        attach(s, h, idx, j) == s,
{
    assert(attach(s, h, idx, j) =~= s);
}

/// The number of marked entries among the first `k`.
pub open spec fn num_marked(m: Seq<bool>, k: int) -> int
    decreases k,
{
    if k <= 0 {
        0
    } else {
        num_marked(m, k - 1) + if m[k - 1] {
            1int
        } else {
            0int
        }
    }
}

proof fn lemma_cnt_plus_marked(m: Seq<bool>, k: int)
    requires
        0 <= k,
    ensures
        cnt(m, k) + num_marked(m, k) == k,
    decreases k,
{
    if k > 0 {
        lemma_cnt_plus_marked(m, k - 1);
    }
}

/// Deleting block `idx` removes exactly the blocks of its subtree: the arena
/// shrinks by their number, and every other block stays, in order.
pub proof fn law_delete_removes_subtree(s: Seq<BlockView>, idx: int, t: Seq<BlockView>)
    requires
        tree_wf(s),
        0 <= idx < s.len(),
        removed_from(t, s, doomed(s, idx)),
    ensures
        t.len() == s.len() - num_marked(doomed(s, idx), s.len() as int),
        forall|k: int| 0 <= k < s.len() ==> (#[trigger] doomed(s, idx)[k] <==> in_subtree(s, k, idx)),
        forall|k: int|
            0 <= k < s.len() && !in_subtree(s, k, idx) ==> #[trigger] t[cnt(doomed(s, idx), k)]
                == renumber(s[k], doomed(s, idx)),
        forall|a: int, b: int|
            0 <= a < b < s.len() && !in_subtree(s, a, idx) && !in_subtree(s, b, idx) ==> cnt(
                doomed(s, idx),
                a,
            ) < cnt(doomed(s, idx), b),
{
    let m = doomed(s, idx);
    lemma_cnt_plus_marked(m, s.len() as int);
    assert forall|a: int, b: int|
        0 <= a < b < s.len() && !in_subtree(s, a, idx) && !in_subtree(s, b, idx) implies cnt(m, a) < cnt(
        m,
        b,
    ) by {
        lemma_cnt_mono(m, a, b);
    }
}

/// Where the new index of a reference `r` is after deleting block `d`.
pub open spec fn shifted(r: int, d: int) -> int {
    if r < d {
        r
    } else {
        r - 1
    }
}

/// Deleting a block `d` with no children renumbers every reference `r` of
/// the blocks that stay to `r` below `d` and to `r - 1` above it, and drops
/// every reference to `d`.
pub proof fn law_delete_renumbers(s: Seq<BlockView>, d: int, t: Seq<BlockView>)
    requires
        tree_wf(s),
        0 <= d < s.len(),
        s.len() <= usize::MAX,
        s[d].children.len() == 0,
        removed_from(t, s, doomed(s, d)),
    ensures
        t.len() == s.len() - 1,
        forall|k: int|
            0 <= k < s.len() && k != d ==> #[trigger] t[shifted(k, d)].attached_to == match s[k].attached_to {
                Some(r) => if r == d {
                    None
                } else {
                    Some(shifted(r as int, d) as usize)
                },
                None => None,
            },
        forall|k: int, x: usize|
            0 <= k < s.len() && k != d ==> (#[trigger] t[shifted(k, d)].children.contains(x) <==> exists|
                q: int,
            |
                0 <= q < s[k].children.len() && s[k].children[q] != d && x == shifted(
                    s[k].children[q] as int,
                    d,
                ) as usize),
{
    let m = doomed(s, d);
    assert(in_subtree(s, d, d));
    assert forall|k: int| 0 <= k < s.len() implies m[k] == (k == d) by {
        if k != d && in_subtree(s, k, d) {
            lemma_below_some_child(s, d, k);
        }
    }
    assert forall|r: int| 0 <= r <= s.len() implies #[trigger] cnt(m, r) == (if r <= d {
        r
    } else {
        r - 1
    }) by {
        lemma_cnt_steps(m, d, r);
    }
    assert forall|k: int| 0 <= k < s.len() && k != d implies #[trigger] t[shifted(k, d)] == renumber(s[k], m) by {
        assert(cnt(m, k) == shifted(k, d));
    }
    assert forall|k: int| 0 <= k < s.len() && k != d implies #[trigger] t[shifted(k, d)].attached_to
        == match s[k].attached_to {
        Some(r) => if r == d {
            None
        } else {
            Some(shifted(r as int, d) as usize)
        },
        None => None,
    } by {
        assert(t[shifted(k, d)] == renumber(s[k], m));
        if s[k].attached_to is Some {
            let r = s[k].attached_to->0 as int;
            assert(cnt(m, r) == shifted(r, d) || r == d);
        }
    }
    assert forall|k: int, x: usize| 0 <= k < s.len() && k != d implies (#[trigger] t[shifted(
        k,
        d,
    )].children.contains(x) <==> exists|q: int|
        0 <= q < s[k].children.len() && s[k].children[q] != d && x == shifted(
            s[k].children[q] as int,
            d,
        ) as usize) by {
        assert(t[shifted(k, d)] == renumber(s[k], m));
        lemma_remap_children(s[k].children, m);
        if exists|q: int|
            0 <= q < s[k].children.len() && s[k].children[q] != d && x == shifted(
                s[k].children[q] as int,
                d,
            ) as usize {
            let q = choose|q: int|
                0 <= q < s[k].children.len() && s[k].children[q] != d && x == shifted(
                    s[k].children[q] as int,
                    d,
                ) as usize;
            assert(!m[s[k].children[q] as int] && cnt(m, s[k].children[q] as int) == x);
        }
        if remap_children(s[k].children, m).contains(x) {
            let q = choose|q: int|
                0 <= q < s[k].children.len() && !m[s[k].children[q] as int] && cnt(
                    m,
                    s[k].children[q] as int,
                ) == x;
            assert(s[k].children[q] != d);
        }
    }
    assert(cnt(m, s.len() as int) == s.len() - 1);
}

proof fn lemma_cnt_steps(m: Seq<bool>, d: int, r: int)
    requires
        0 <= d < m.len(),
        0 <= r <= m.len(),
        forall|k: int| 0 <= k < m.len() ==> m[k] == (k == d),
    ensures
        cnt(m, r) == (if r <= d {
            r
        } else {
            r - 1
        }),
    decreases r,
{
    if r > 0 {
        lemma_cnt_steps(m, d, r - 1);
    }
}

/// After deleting block `idx`, every reference held by a block that stays
/// names a block that stays: a reference `r` becomes `r` less the number of
/// removed blocks below `r`, and points at the same block as before, now
/// renumbered; references to removed blocks are gone.
pub proof fn law_delete_references_survivors(s: Seq<BlockView>, idx: int, t: Seq<BlockView>)
    requires
        tree_wf(s),
        0 <= idx < s.len(),
        s.len() <= usize::MAX,
        removed_from(t, s, doomed(s, idx)),
    ensures
        forall|r: int|
            0 <= r <= s.len() ==> #[trigger] cnt(doomed(s, idx), r) == r - num_marked(doomed(s, idx), r),
        forall|k: int|
            0 <= k < s.len() && !in_subtree(s, k, idx) && s[k].attached_to is Some ==> {
                let p = s[k].attached_to->0 as int;
                &&& !in_subtree(s, p, idx)
                &&& #[trigger] t[cnt(doomed(s, idx), k)].attached_to == Some(
                    cnt(doomed(s, idx), p) as usize,
                )
                &&& cnt(doomed(s, idx), p) < t.len()
                &&& t[cnt(doomed(s, idx), p)] == renumber(s[p], doomed(s, idx))
            },
        forall|k: int, x: usize|
            0 <= k < s.len() && !in_subtree(s, k, idx) ==> (#[trigger] t[cnt(
                doomed(s, idx),
                k,
            )].children.contains(x) <==> exists|q: int|
                0 <= q < s[k].children.len() && !in_subtree(s, s[k].children[q] as int, idx) && x
                    == cnt(doomed(s, idx), s[k].children[q] as int)),
        forall|k: int, q: int|
            0 <= k < s.len() && !in_subtree(s, k, idx) && 0 <= q < s[k].children.len() && !in_subtree(
                s,
                s[k].children[q] as int,
                idx,
            ) ==> cnt(doomed(s, idx), #[trigger] s[k].children[q] as int) < t.len() && t[cnt(
                doomed(s, idx),
                s[k].children[q] as int,
            )] == renumber(s[s[k].children[q] as int], doomed(s, idx)),
{
    let m = doomed(s, idx);
    let n = s.len() as int;
    assert forall|r: int| 0 <= r <= s.len() implies #[trigger] cnt(m, r) == r - num_marked(m, r) by {
        lemma_cnt_plus_marked(m, r);
    }
    assert forall|k: int|
        0 <= k < s.len() && !in_subtree(s, k, idx) && s[k].attached_to is Some implies {
            let p = s[k].attached_to->0 as int;
            &&& !in_subtree(s, p, idx)
            &&& #[trigger] t[cnt(m, k)].attached_to == Some(cnt(m, p) as usize)
            &&& cnt(m, p) < t.len()
            &&& t[cnt(m, p)] == renumber(s[p], m)
        } by {
        let p = s[k].attached_to->0 as int;
        assert(!m[k]);
        lemma_doomed_closed(s, idx, k);
        assert(t[cnt(m, k)] == renumber(s[k], m));
        lemma_cnt_mono(m, p, n);
        assert(t[cnt(m, p)] == renumber(s[p], m));
    }
    assert forall|k: int, x: usize| 0 <= k < s.len() && !in_subtree(s, k, idx) implies (#[trigger] t[cnt(
        m,
        k,
    )].children.contains(x) <==> exists|q: int|
        0 <= q < s[k].children.len() && !in_subtree(s, s[k].children[q] as int, idx) && x == cnt(
            m,
            s[k].children[q] as int,
        )) by {
        assert(!m[k]);
        assert(t[cnt(m, k)] == renumber(s[k], m));
        lemma_remap_children(s[k].children, m);
        if exists|q: int|
            0 <= q < s[k].children.len() && !in_subtree(s, s[k].children[q] as int, idx) && x == cnt(
                m,
                s[k].children[q] as int,
            ) {
            let q = choose|q: int|
                0 <= q < s[k].children.len() && !in_subtree(s, s[k].children[q] as int, idx) && x
                    == cnt(m, s[k].children[q] as int);
            assert(!m[s[k].children[q] as int] && cnt(m, s[k].children[q] as int) == x);
        }
        if remap_children(s[k].children, m).contains(x) {
            let q = choose|q: int|
                0 <= q < s[k].children.len() && !m[s[k].children[q] as int] && cnt(
                    m,
                    s[k].children[q] as int,
                ) == x;
            assert(!in_subtree(s, s[k].children[q] as int, idx));
        }
    }
    assert forall|k: int, q: int|
        0 <= k < s.len() && !in_subtree(s, k, idx) && 0 <= q < s[k].children.len() && !in_subtree(
            s,
            s[k].children[q] as int,
            idx,
        ) implies cnt(m, #[trigger] s[k].children[q] as int) < t.len() && t[cnt(
        m,
        s[k].children[q] as int,
    )] == renumber(s[s[k].children[q] as int], m) by {
        let c = s[k].children[q] as int;
        assert(!m[c]);
        lemma_cnt_mono(m, c, n);
        assert(t[cnt(m, c)] == renumber(s[c], m));
    }
}

/// Every child of a block in the subtree of `p` sits exactly in its slot,
/// with no clamping involved.
pub open spec fn stacked_below(s: Seq<BlockView>, p: int, h: int) -> bool {
    forall|q: int, v: int|
        0 <= q < s.len() && in_subtree(s, q, p) && 0 <= v < s[q].children.len() ==> {
            let c = #[trigger] s[q].children[v] as int;
            &&& s[c].pos.x == s[q].pos.x + s[q].offset().x
            &&& s[c].pos.y == s[q].pos.y + h + s[q].offset().y + v * h
        }
}

/// `s` with block `p` moved by `(dx, dy)`.
pub open spec fn moved_by(s: Seq<BlockView>, p: int, dx: int, dy: int) -> Seq<BlockView> {
    s.update(
        p,
        BlockView { pos: Pos2 { x: (s[p].pos.x + dx) as i64, y: (s[p].pos.y + dy) as i64 }, ..s[p] },
    )
}

/// Dragging a block whose subtree is stacked below it moves the whole
/// subtree by the same displacement, where no position leaves the canvas
/// range (the arena after the drag is the one `on_drag_delta` states).
pub proof fn law_drag_moves_subtree_rigidly(
    s: Seq<BlockView>,
    p: int,
    h: int,
    dx: int,
    dy: int,
    t: Seq<BlockView>,
)
    requires
        tree_wf(s),
        0 <= p < s.len(),
        s.len() <= usize::MAX,
        stacked_below(s, p, h),
        forall|k: int|
            0 <= k < s.len() && #[trigger] in_subtree(s, k, p) ==> in_range(s[k].pos.x + dx) && in_range(
                s[k].pos.y + dy,
            ),
        repositioned(t, moved_by(s, p, dx, dy), p, h),
    ensures
        forall|k: int|
            0 <= k < s.len() && #[trigger] in_subtree(s, k, p) ==> t[k].pos.x == s[k].pos.x + dx
                && t[k].pos.y == s[k].pos.y + dy,
{
    assert forall|k: int| 0 <= k < s.len() && #[trigger] in_subtree(s, k, p) implies t[k].pos.x
        == s[k].pos.x + dx && t[k].pos.y == s[k].pos.y + dy by {
        lemma_rigid(s, p, h, dx, dy, t, k);
    }
}

proof fn lemma_rigid(s: Seq<BlockView>, p: int, h: int, dx: int, dy: int, t: Seq<BlockView>, k: int)
    requires
        tree_wf(s),
        0 <= p < s.len(),
        s.len() <= usize::MAX,
        stacked_below(s, p, h),
        forall|k: int|
            0 <= k < s.len() && #[trigger] in_subtree(s, k, p) ==> in_range(s[k].pos.x + dx) && in_range(
                s[k].pos.y + dy,
            ),
        repositioned(t, moved_by(s, p, dx, dy), p, h),
        0 <= k < s.len(),
        in_subtree(s, k, p),
    ensures
        t[k].pos.x == s[k].pos.x + dx,
        t[k].pos.y == s[k].pos.y + dy,
    decreases rank_of(parents(s))[k],
{
    let s1 = moved_by(s, p, dx, dy);
    let par = parents(s);
    let r = rank_of(par);
    lemma_rank_of(s);
    assert(parents(s1) =~= par);
    lemma_same_parents(s, s1);
    if k == p {
        assert(t[p] == s1[p]);
    } else {
        let q = par[k]->0;
        assert(r[par[k]->0 as int] < r[k]);
        assert(reaches(par, r, k, p) == reaches(par, r, q as int, p));
        lemma_rigid(s, p, h, dx, dy, t, q as int);
        assert(s[q as int].children.contains(k as usize));
        let v = choose|v: int| 0 <= v < s[q as int].children.len() && s[q as int].children[v] == k as usize;
        assert(s1[q as int].children == s[q as int].children);
        assert(s1[q as int].children[v] == k as usize);
        assert(t[k].pos == t[q as int].slot(h, v));
        assert(t[q as int].offset() == s[q as int].offset()) by {
            assert(t[q as int] == BlockView { pos: t[q as int].pos, ..s1[q as int] });
        }
    }
}


} // verus!
