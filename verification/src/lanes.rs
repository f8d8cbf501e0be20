//! One lane of the board under a move, in lane-local coordinates: position
//! `0` is the cell on the edge the move presses against, position `k` is
//! `k` steps away from it.  `walk` is the single-tile slide procedure on
//! such a lane; `collapse_stack` folds the lane's tiles, edge-first, into
//! the packed result with cascading merges; the sweep lemma shows that
//! running the walk from every start, edge-first, computes exactly that
//! fold.

use vstd::prelude::*;
use vstd::arithmetic::power2::pow2;

verus! {

/// The single-tile slide procedure started at position `j`: step toward the
/// edge, carrying a tile over empty cells, merging it into an equal
/// neighbour, stopping on the edge.  One recursion step is one loop step.
pub open spec fn walk(l: Seq<i32>, j: int) -> Seq<i32>
    decreases j,
{
    if j <= 0 {
        l
    } else {
        let v = l[j];
        if v == 0 {
            walk(l, j - 1)
        } else if l[j - 1] == 0 {
            walk(l.update(j - 1, v).update(j, 0), j - 1)
        } else if l[j - 1] == v {
            walk(l.update(j - 1, (v + 1) as i32).update(j, 0), j - 1)
        } else {
            walk(l, j - 1)
        }
    }
}

/// The score the walk from `j` gains: `2^(v+1)` for each merge it performs.
pub open spec fn walk_gain(l: Seq<i32>, j: int) -> int
    decreases j,
{
    if j <= 0 {
        0
    } else {
        let v = l[j];
        if v == 0 {
            walk_gain(l, j - 1)
        } else if l[j - 1] == 0 {
            walk_gain(l.update(j - 1, v).update(j, 0), j - 1)
        } else if l[j - 1] == v {
            pow2((v + 1) as nat) + walk_gain(l.update(j - 1, (v + 1) as i32).update(j, 0), j - 1)
        } else {
            walk_gain(l, j - 1)
        }
    }
}

/// The traces the walk from `j` leaves behind, appended to `acc`, as
/// `(from, to)` edge distances; `sw` is the just-slid flag.  A slide right
/// after a slide extends the previous trace instead of adding one; a merge
/// always adds its own trace and clears the flag; stepping over an empty or
/// blocked cell leaves both the list and the flag alone.
pub open spec fn walk_traces(l: Seq<i32>, j: int, acc: Seq<(int, int)>, sw: bool) -> Seq<
    (int, int),
>
    decreases j,
{
    if j <= 0 {
        acc
    } else {
        let v = l[j];
        if v == 0 {
            walk_traces(l, j - 1, acc, sw)
        } else if l[j - 1] == 0 {
            let acc2 = if sw {
                acc.drop_last().push((acc.last().0, j - 1))
            } else {
                acc.push((j, j - 1))
            };
            walk_traces(l.update(j - 1, v).update(j, 0), j - 1, acc2, true)
        } else if l[j - 1] == v {
            walk_traces(
                l.update(j - 1, (v + 1) as i32).update(j, 0),
                j - 1,
                acc.push((j, j - 1)),
                false,
            )
        } else {
            walk_traces(l, j - 1, acc, sw)
        }
    }
}

/// The traces of the whole sweep of one lane: each start from the edge
/// inward appends its walk's traces.
pub open spec fn sweep_traces(l0: Seq<i32>, b: int) -> Seq<(int, int)>
    decreases b,
{
    if b <= 0 {
        Seq::empty()
    } else {
        sweep_traces(l0, b - 1) + walk_traces(swept(l0, b - 1), b - 1, Seq::empty(), false)
    }
}

/// A tile of value `v` arriving at a stack of settled tiles: it merges with
/// the top while they are equal, each merge raising it by one, and lands on
/// top otherwise.
pub open spec fn merge_stack(st: Seq<i32>, v: i32) -> Seq<i32>
    decreases st.len(),
{
    if st.len() == 0 {
        st.push(v)
    } else if st.last() == v {
        merge_stack(st.drop_last(), (v + 1) as i32)
    } else {
        st.push(v)
    }
}

/// The score those merges gain.
pub open spec fn merge_gain(st: Seq<i32>, v: i32) -> int
    decreases st.len(),
{
    if st.len() == 0 {
        0
    } else if st.last() == v {
        pow2((v + 1) as nat) + merge_gain(st.drop_last(), (v + 1) as i32)
    } else {
        0
    }
}

/// The lane's tiles folded edge-first: each non-zero value arrives at the
/// stack built from the values nearer the edge.
pub open spec fn collapse_stack(vals: Seq<i32>) -> Seq<i32>
    decreases vals.len(),
{
    if vals.len() == 0 {
        Seq::empty()
    } else {
        let st = collapse_stack(vals.drop_last());
        if vals.last() == 0 {
            st
        } else {
            merge_stack(st, vals.last())
        }
    }
}

/// The score the whole fold gains.
pub open spec fn collapse_gain(vals: Seq<i32>) -> int
    decreases vals.len(),
{
    if vals.len() == 0 {
        0
    } else {
        let g = collapse_gain(vals.drop_last());
        if vals.last() == 0 {
            g
        } else {
            g + merge_gain(collapse_stack(vals.drop_last()), vals.last())
        }
    }
}

/// A stack padded with empty cells to lane length: the collapsed tiles sit
/// against the edge, everything else is empty.
pub open spec fn packed(st: Seq<i32>, size: int) -> Seq<i32> {
    Seq::new(size as nat, |j: int| if j < st.len() {
        st[j]
    } else {
        0
    })
}

/// The lane after the sweep has run the walk from every start nearer than
/// `b`: the fold of the first `b` values packed against the edge, then
/// empty cells, then the untouched values from `b` on.
pub open spec fn swept(l0: Seq<i32>, b: int) -> Seq<i32> {
    Seq::new(
        l0.len(),
        |j: int|
            {
                let st = collapse_stack(l0.take(b));
                if j < st.len() {
                    st[j]
                } else if j < b {
                    0
                } else {
                    l0[j]
                }
            },
    )
}

/// An arrival adds at most one tile to the stack.
pub proof fn lemma_merge_stack_len(st: Seq<i32>, v: i32)
    ensures
        merge_stack(st, v).len() <= st.len() + 1,
    decreases st.len(),
{
    if st.len() > 0 && st.last() == v {
        lemma_merge_stack_len(st.drop_last(), (v + 1) as i32);
    }
}

/// A lane already settled for its move — every cell occupied, no two
/// neighbours equal — folds to itself and gains nothing.
pub proof fn lemma_collapse_settled(vals: Seq<i32>)
    requires
        forall|j: int| 0 <= j < vals.len() ==> #[trigger] vals[j] != 0,
        forall|j: int| 0 < j < vals.len() ==> #[trigger] vals[j] != vals[j - 1],
    ensures
        collapse_stack(vals) == vals,
        collapse_gain(vals) == 0,
    decreases vals.len(),
{
    if vals.len() == 0 {
        assert(collapse_stack(vals) =~= vals);
    } else {
        let w = vals.drop_last();
        let x = vals.last();
        lemma_collapse_settled(w);
        if w.len() > 0 {
            assert(w.last() == vals[vals.len() - 2]);
            assert(w.last() != x);
        }
        assert(merge_stack(w, x) =~= vals);
    }
}

/// A fully occupied lane with two equal neighbours folds into fewer tiles.
pub proof fn lemma_collapse_shrinks(vals: Seq<i32>)
    requires
        forall|j: int| 0 <= j < vals.len() ==> #[trigger] vals[j] != 0,
        exists|j: int| 0 < j < vals.len() && #[trigger] vals[j] == vals[j - 1],
    ensures
        collapse_stack(vals).len() < vals.len(),
    decreases vals.len(),
{
    let w = vals.drop_last();
    let x = vals.last();
    let jw = choose|j: int| 0 < j < vals.len() && #[trigger] vals[j] == vals[j - 1];
    if jw < vals.len() - 1 || (exists|j: int| 0 < j < w.len() && #[trigger] w[j] == w[j - 1]) {
        if jw < vals.len() - 1 {
            assert(0 < jw < w.len() && w[jw] == w[jw - 1]);
        }
        lemma_collapse_shrinks(w);
        lemma_merge_stack_len(collapse_stack(w), x);
    } else {
        lemma_collapse_settled(w);
        assert(w.last() == vals[jw - 1] && x == vals[jw]);
        assert(merge_stack(w, x) == merge_stack(w.drop_last(), (x + 1) as i32));
        lemma_merge_stack_len(w.drop_last(), (x + 1) as i32);
    }
}

/// A well-formed stack: every tile occupied and at most `hi`, no two
/// neighbours equal.
pub open spec fn stack_ok(st: Seq<i32>, hi: int) -> bool {
    &&& forall|j: int| 0 <= j < st.len() ==> 1 <= #[trigger] st[j] <= hi
    &&& forall|j: int| 0 < j < st.len() ==> #[trigger] st[j] != st[j - 1]
}

/// An arrival keeps the stack well formed.  The bound grows by one per
/// merge, and every merge shortens the stack, so the new bound is
/// `hi + (st.len() + 1 - result.len())`.
pub proof fn lemma_merge_stack_props(st: Seq<i32>, v: i32, hi: int)
    requires
        stack_ok(st, hi),
        1 <= v <= hi,
        hi + st.len() + 1 < 0x7FFF_FFFF,
    ensures
        1 <= merge_stack(st, v).len() <= st.len() + 1,
        stack_ok(merge_stack(st, v), hi + (st.len() + 1 - merge_stack(st, v).len())),
        merge_gain(st, v) >= 0,
    decreases st.len(),
{
    if st.len() == 0 {
    } else if st.last() == v {
        assert(stack_ok(st.drop_last(), hi + 1));
        lemma_merge_stack_props(st.drop_last(), (v + 1) as i32, hi + 1);
    } else {
        let ms = st.push(v);
        assert forall|j: int| 0 <= j < ms.len() implies 1 <= #[trigger] ms[j] <= hi by {
            if j < st.len() {
                assert(ms[j] == st[j]);
            }
        }
        assert forall|j: int| 0 < j < ms.len() implies #[trigger] ms[j] != ms[j - 1] by {
            if j < st.len() {
                assert(ms[j] == st[j] && ms[j - 1] == st[j - 1]);
            } else {
                assert(ms[j] == v && ms[j - 1] == st.last());
            }
        }
    }
}

/// The fold of a lane of exponents up to `31` is a well-formed stack no
/// longer than the lane, bounded by `31` plus one per merge performed.
pub proof fn lemma_collapse_props(vals: Seq<i32>)
    requires
        forall|j: int| 0 <= j < vals.len() ==> 0 <= #[trigger] vals[j] <= 31,
        vals.len() + 33 < 0x7FFF_FFFF,
    ensures
        collapse_stack(vals).len() <= vals.len(),
        stack_ok(collapse_stack(vals), 31 + vals.len() - collapse_stack(vals).len()),
        collapse_gain(vals) >= 0,
    decreases vals.len(),
{
    if vals.len() > 0 {
        let w = vals.drop_last();
        let x = vals.last();
        lemma_collapse_props(w);
        let st = collapse_stack(w);
        let hi = 31 + w.len() - st.len();
        if x != 0 {
            assert(stack_ok(st, hi));
            lemma_merge_stack_props(st, x, hi);
            let ms = merge_stack(st, x);
            assert(stack_ok(ms, hi + (st.len() + 1 - ms.len())));
            assert(hi + (st.len() + 1 - ms.len()) == 31 + vals.len() - ms.len());
        }
    }
}

/// A walk over settled ground changes nothing: wherever it stands on a
/// tile, the next cell toward the edge holds a different occupied tile.
pub proof fn lemma_walk_settled(l: Seq<i32>, j: int)
    requires
        0 <= j < l.len(),
        forall|x: int| 1 <= x <= j && #[trigger] l[x] != 0 ==> l[x - 1] != 0 && l[x - 1] != l[x],
    ensures
        walk(l, j) == l,
        walk_gain(l, j) == 0,
    decreases j,
{
    if j > 0 {
        lemma_walk_settled(l, j - 1);
    }
}

/// A walk started on a tile `v` with only empty cells between it and a
/// settled stack slides the tile to the stack and merges it in: the lane
/// becomes the arrival result packed against the edge, and the walk gains
/// exactly the arrival's merges.
pub proof fn lemma_walk_arrive(l: Seq<i32>, st: Seq<i32>, b: int, v: i32, hi: int)
    requires
        0 <= b < l.len(),
        stack_ok(st, hi),
        1 <= v <= hi,
        hi + st.len() + 1 < 0x7FFF_FFFF,
        st.len() <= b,
        forall|j: int| 0 <= j < st.len() ==> l[j] == st[j],
        forall|j: int| st.len() <= j < b ==> l[j] == 0,
        l[b] == v,
    ensures
        ({
            let ms = merge_stack(st, v);
            &&& walk(l, b) == Seq::new(
                l.len(),
                |j: int|
                    if j < ms.len() {
                        ms[j]
                    } else if j <= b {
                        0
                    } else {
                        l[j]
                    },
            )
            &&& walk_gain(l, b) == merge_gain(st, v)
        }),
    decreases b,
{
    let ms = merge_stack(st, v);
    let target = Seq::new(
        l.len(),
        |j: int|
            if j < ms.len() {
                ms[j]
            } else if j <= b {
                0
            } else {
                l[j]
            },
    );
    lemma_merge_stack_props(st, v, hi);
    if st.len() < b {
        // an empty cell ahead: slide one step and arrive from there
        let l2 = l.update(b - 1, v).update(b, 0);
        lemma_walk_arrive(l2, st, b - 1, v, hi);
        let target2 = Seq::new(
            l2.len(),
            |j: int|
                if j < ms.len() {
                    ms[j]
                } else if j <= b - 1 {
                    0
                } else {
                    l2[j]
                },
        );
        assert(target2 =~= target);
    } else if st.len() == 0 {
        // b == 0: the tile already rests on the edge
        assert(target =~= l);
    } else if st.last() == v {
        // merge into the top, then arrive as `v + 1` on the shorter stack
        let v2 = (v + 1) as i32;
        let l2 = l.update(b - 1, v2).update(b, 0);
        assert(stack_ok(st.drop_last(), hi + 1));
        lemma_walk_arrive(l2, st.drop_last(), b - 1, v2, hi + 1);
        let ms2 = merge_stack(st.drop_last(), v2);
        assert(ms2 == ms);
        let target2 = Seq::new(
            l2.len(),
            |j: int|
                if j < ms2.len() {
                    ms2[j]
                } else if j <= b - 1 {
                    0
                } else {
                    l2[j]
                },
        );
        assert(target2 =~= target);
    } else {
        // blocked: the tile lands on top and the walk settles
        assert(walk(l, b) == walk(l, b - 1));
        assert forall|x: int| 1 <= x <= b - 1 && #[trigger] l[x] != 0 implies l[x - 1] != 0 && l[x
            - 1] != l[x] by {
            assert(l[x] == st[x]);
            assert(l[x - 1] == st[x - 1]);
        }
        lemma_walk_settled(l, b - 1);
        assert(target =~= l);
    }
}

/// One sweep start: running the walk from position `b` of the partially
/// swept lane folds value `b` in, giving the partially swept lane for
/// `b + 1`, and gains exactly what the fold's arrival gains.
pub proof fn lemma_sweep_step(l0: Seq<i32>, b: int)
    requires
        0 <= b < l0.len(),
        forall|j: int| 0 <= j < l0.len() ==> 0 <= #[trigger] l0[j] <= 31,
        l0.len() + 33 < 0x7FFF_FFFF,
    ensures
        walk(swept(l0, b), b) == swept(l0, b + 1),
        walk_gain(swept(l0, b), b) == collapse_gain(l0.take(b + 1)) - collapse_gain(l0.take(b)),
{
    let l = swept(l0, b);
    let tk = l0.take(b);
    let st = collapse_stack(tk);
    assert(forall|j: int| 0 <= j < tk.len() ==> 0 <= #[trigger] tk[j] <= 31);
    lemma_collapse_props(tk);
    let hi = 31 + tk.len() - st.len();
    assert(l0.take(b + 1).drop_last() =~= tk);
    assert(l0.take(b + 1).last() == l0[b]);
    let v = l0[b];
    if v == 0 {
        assert(collapse_stack(l0.take(b + 1)) == st);
        assert(swept(l0, b + 1) =~= l);
        if b > 0 {
            assert forall|x: int| 1 <= x <= b - 1 && #[trigger] l[x] != 0 implies l[x - 1] != 0
                && l[x - 1] != l[x] by {
                assert(l[x] == st[x]);
                assert(l[x - 1] == st[x - 1]);
            }
            lemma_walk_settled(l, b - 1);
        }
    } else {
        assert(1 <= v <= 31);
        assert(stack_ok(st, hi));
        lemma_walk_arrive(l, st, b, v, hi);
        let ms = merge_stack(st, v);
        assert(collapse_stack(l0.take(b + 1)) == ms);
        lemma_merge_stack_props(st, v, hi);
        let target = Seq::new(
            l.len(),
            |j: int|
                if j < ms.len() {
                    ms[j]
                } else if j <= b {
                    0
                } else {
                    l[j]
                },
        );
        assert(target =~= swept(l0, b + 1));
    }
}

/// Before any start has run, the swept lane is the lane itself.
pub proof fn lemma_swept_start(l0: Seq<i32>)
    ensures
        swept(l0, 0) == l0,
{
    assert(swept(l0, 0) =~= l0);
}

/// After every start has run, the swept lane is the packed fold.
pub proof fn lemma_swept_done(l0: Seq<i32>)
    requires
        forall|j: int| 0 <= j < l0.len() ==> 0 <= #[trigger] l0[j] <= 31,
        l0.len() + 33 < 0x7FFF_FFFF,
    ensures
        swept(l0, l0.len() as int) == packed(collapse_stack(l0), l0.len() as int),
        collapse_gain(l0.take(l0.len() as int)) == collapse_gain(l0),
{
    assert(l0.take(l0.len() as int) =~= l0);
    lemma_collapse_props(l0);
    assert(swept(l0, l0.len() as int) =~= packed(collapse_stack(l0), l0.len() as int));
}

} // verus!
