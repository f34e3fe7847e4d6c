//! What it means to merge two dimension registries, stated over sequences of
//! dimensions, with the facts that the merge in
//! [`crate::granularity::possible_dimensions`] relies on.

use crate::granularity::entries::lex_le;
use crate::granularity::possible_dimensions::{has_name, names_distinct, Dimension};
use vstd::prelude::*;

verus! {

/// Of two dimensions with different names, whether `a` goes before `b`: the
/// one with fewer labels does, and on equal counts the one whose name is
/// smaller.
pub open spec fn takes_lhs(a: Dimension, b: Dimension) -> bool {
    a.1.len() < b.1.len() || (a.1.len() == b.1.len() && lex_le(a.0, b.0))
}

/// The number of dimensions of `side` from the cursor position `i` on.
pub open spec fn left_of(side: Seq<Dimension>, i: int) -> nat {
    if i < side.len() {
        (side.len() - i) as nat
    } else {
        0
    }
}

/// The dimensions that a two-cursor walk over `l` and `r` visits from the
/// cursor positions `i` and `j` on, in the order of the visits. Where both
/// heads carry the same name the walk visits both, the one of `l` first, and
/// advances both cursors; otherwise it visits the head that
/// [`takes_lhs`] prefers and advances that cursor alone. Once one side is
/// used up, the rest of the other follows in its own order.
pub open spec fn walk_from(l: Seq<Dimension>, r: Seq<Dimension>, i: int, j: int) -> Seq<Dimension>
    decreases left_of(l, i) + left_of(r, j),
{
    if i >= l.len() && j >= r.len() {
        Seq::empty()
    } else if j >= r.len() {
        seq![l[i]] + walk_from(l, r, i + 1, j)
    } else if i >= l.len() {
        seq![r[j]] + walk_from(l, r, i, j + 1)
    } else if l[i].0 == r[j].0 {
        seq![l[i], r[j]] + walk_from(l, r, i + 1, j + 1)
    } else if takes_lhs(l[i], r[j]) {
        seq![l[i]] + walk_from(l, r, i + 1, j)
    } else {
        seq![r[j]] + walk_from(l, r, i, j + 1)
    }
}

/// The whole walk over `l` and `r`.
pub open spec fn merge_walk(l: Seq<Dimension>, r: Seq<Dimension>) -> Seq<Dimension> {
    walk_from(l, r, 0, 0)
}

/// `w` without every dimension whose name an earlier one of `w` carries.
pub open spec fn first_occurrences(w: Seq<Dimension>) -> Seq<Dimension>
    decreases w.len(),
{
    if w.len() == 0 {
        Seq::empty()
    } else {
        let kept = first_occurrences(w.drop_last());
        if has_name(kept, w.last().0) {
            kept
        } else {
            kept.push(w.last())
        }
    }
}

/// The registry that merging `l` and `r` gives where they do not conflict.
pub open spec fn merged(l: Seq<Dimension>, r: Seq<Dimension>) -> Seq<Dimension> {
    first_occurrences(merge_walk(l, r))
}

/// The dimension at `k` carries the name of an earlier one of `w`, with other labels.
pub open spec fn clash_at(w: Seq<Dimension>, k: int) -> bool {
    exists|p: int| 0 <= p < k && (#[trigger] w[p]).0 == w[k].0 && w[p].1 != w[k].1
}

/// No name occurs in `w` with two different lists of labels.
pub open spec fn clash_free(w: Seq<Dimension>) -> bool {
    forall|k: int| 0 <= k < w.len() ==> !clash_at(w, k)
}

/// `k` is the first position of `w` at which a name returns with other labels.
pub open spec fn first_clash(w: Seq<Dimension>, k: int) -> bool {
    &&& 0 <= k < w.len()
    &&& clash_at(w, k)
    &&& forall|h: int| 0 <= h < k ==> !clash_at(w, h)
}

/// Every name that `l` and `r` share has the same labels in both.
pub open spec fn compatible(l: Seq<Dimension>, r: Seq<Dimension>) -> bool {
    forall|a: int, b: int|
        #![trigger l[a], r[b]]
        0 <= a < l.len() && 0 <= b < r.len() && l[a].0 == r[b].0 ==> l[a].1 == r[b].1
}

/// Whether a clash occurs at a position depends on the sequence up to that position only.
pub proof fn lemma_clash_at_prefix(w: Seq<Dimension>, rest: Seq<Dimension>, k: int)
    requires
        0 <= k < w.len(),
    ensures
        clash_at(w + rest, k) == clash_at(w, k),
{
    let whole = w + rest;
    if clash_at(w, k) {
        let p = choose|p: int| 0 <= p < k && (#[trigger] w[p]).0 == w[k].0 && w[p].1 != w[k].1;
        assert(whole[p] == w[p]);
        assert(whole[k] == w[k]);
    }
    if clash_at(whole, k) {
        let p = choose|p: int|
            0 <= p < k && (#[trigger] whole[p]).0 == whole[k].0 && whole[p].1 != whole[k].1;
        assert(whole[p] == w[p]);
        assert(whole[k] == w[k]);
    }
}

/// The first clash of a sequence is the first clash of every longer one.
pub proof fn lemma_first_clash_prefix(w: Seq<Dimension>, rest: Seq<Dimension>, k: int)
    requires
        first_clash(w, k),
    ensures
        first_clash(w + rest, k),
        (w + rest)[k] == w[k],
{
    lemma_clash_at_prefix(w, rest, k);
    assert forall|h: int| 0 <= h < k implies !clash_at(w + rest, h) by {
        lemma_clash_at_prefix(w, rest, h);
    }
}

/// A clash-free sequence stays clash-free without its last dimension.
pub proof fn lemma_clash_free_front(w: Seq<Dimension>)
    requires
        clash_free(w),
        w.len() > 0,
    ensures
        clash_free(w.drop_last()),
{
    let front = w.drop_last();
    assert(w =~= front + seq![w.last()]);
    assert forall|k: int| 0 <= k < front.len() implies !clash_at(front, k) by {
        lemma_clash_at_prefix(front, seq![w.last()], k);
    }
}

/// [`first_occurrences`] keeps no name twice.
pub proof fn lemma_kept_distinct(w: Seq<Dimension>)
    ensures
        names_distinct(first_occurrences(w)),
    decreases w.len(),
{
    if w.len() > 0 {
        lemma_kept_distinct(w.drop_last());
    }
}

/// Each dimension that [`first_occurrences`] keeps is one of `w`.
pub proof fn lemma_kept_from(w: Seq<Dimension>, p: int)
    requires
        0 <= p < first_occurrences(w).len(),
    ensures
        w.contains(first_occurrences(w)[p]),
    decreases w.len(),
{
    let front = w.drop_last();
    let kept = first_occurrences(front);
    if p < kept.len() {
        lemma_kept_from(front, p);
        let k = choose|k: int| 0 <= k < front.len() && front[k] == kept[p];
        assert(w[k] == kept[p]);
    } else {
        assert(w[w.len() - 1] == first_occurrences(w)[p]);
    }
}

/// [`first_occurrences`] keeps a dimension for each name of `w`.
pub proof fn lemma_kept_names(w: Seq<Dimension>, k: int)
    requires
        0 <= k < w.len(),
    ensures
        has_name(first_occurrences(w), w[k].0),
    decreases w.len(),
{
    let front = w.drop_last();
    let kept = first_occurrences(front);
    let all = first_occurrences(w);
    if k < front.len() {
        lemma_kept_names(front, k);
        let p = choose|p: int| 0 <= p < kept.len() && (#[trigger] kept[p]).0 == front[k].0;
        assert(all[p].0 == w[k].0);
    } else if has_name(kept, w.last().0) {
    } else {
        assert(all[all.len() - 1].0 == w[k].0);
    }
}

/// Of a clash-free `w`, [`first_occurrences`] keeps every dimension, labels included.
pub proof fn lemma_kept_all(w: Seq<Dimension>, k: int)
    requires
        clash_free(w),
        0 <= k < w.len(),
    ensures
        first_occurrences(w).contains(w[k]),
    decreases w.len(),
{
    let front = w.drop_last();
    let kept = first_occurrences(front);
    let all = first_occurrences(w);
    if k < front.len() {
        lemma_clash_free_front(w);
        lemma_kept_all(front, k);
        let p = choose|p: int| 0 <= p < kept.len() && kept[p] == front[k];
        assert(all[p] == w[k]);
    } else if has_name(kept, w.last().0) {
        let p = choose|p: int| 0 <= p < kept.len() && (#[trigger] kept[p]).0 == w.last().0;
        lemma_kept_from(front, p);
        let h = choose|h: int| 0 <= h < front.len() && front[h] == kept[p];
        assert(w[h] == kept[p]);
        assert(!clash_at(w, k));
        assert(w[h].1 == w[k].1);
        assert(all[p] == w[k]);
    } else {
        assert(all[all.len() - 1] == w[k]);
    }
}

/// Visiting `e` after the clash-free `visited`, where a kept dimension
/// carries the name of `e` with other labels: the first clash is at `e`.
pub proof fn lemma_visit_clash(visited: Seq<Dimension>, e: Dimension, p: int)
    requires
        clash_free(visited),
        0 <= p < first_occurrences(visited).len(),
        first_occurrences(visited)[p].0 == e.0,
        first_occurrences(visited)[p].1 != e.1,
    ensures
        first_clash(visited.push(e), visited.len() as int),
{
    let kept = first_occurrences(visited);
    let next = visited.push(e);
    assert(next =~= visited + seq![e]);
    assert forall|h: int| 0 <= h < visited.len() implies !clash_at(next, h) by {
        lemma_clash_at_prefix(visited, seq![e], h);
    }
    lemma_kept_from(visited, p);
    let h = choose|h: int| 0 <= h < visited.len() && visited[h] == kept[p];
    assert(next[h] == kept[p]);
}

/// Visiting `e` after the clash-free `visited`, where `e` itself is kept
/// already: nothing changes and no clash arises.
pub proof fn lemma_visit_known(visited: Seq<Dimension>, e: Dimension, p: int)
    requires
        clash_free(visited),
        0 <= p < first_occurrences(visited).len(),
        first_occurrences(visited)[p] == e,
    ensures
        clash_free(visited.push(e)),
        first_occurrences(visited.push(e)) == first_occurrences(visited),
{
    let kept = first_occurrences(visited);
    let next = visited.push(e);
    let last = visited.len() as int;
    assert(next =~= visited + seq![e]);
    assert(next.drop_last() =~= visited);
    assert(has_name(kept, e.0));
    lemma_kept_distinct(visited);
    assert forall|h: int| 0 <= h < next.len() implies !clash_at(next, h) by {
        if h < last {
            lemma_clash_at_prefix(visited, seq![e], h);
        } else if clash_at(next, last) {
            let g = choose|g: int|
                0 <= g < last && (#[trigger] next[g]).0 == next[last].0 && next[g].1
                    != next[last].1;
            assert(next[g] == visited[g]);
            lemma_kept_all(visited, g);
            let q = choose|q: int| 0 <= q < kept.len() && kept[q] == visited[g];
            assert(kept[q].0 == kept[p].0);
            assert(q == p);
        }
    }
}

/// Visiting `e` after the clash-free `visited`, where no kept dimension
/// carries the name of `e`: `e` is kept last and no clash arises.
pub proof fn lemma_visit_new(visited: Seq<Dimension>, e: Dimension)
    requires
        clash_free(visited),
        !has_name(first_occurrences(visited), e.0),
    ensures
        clash_free(visited.push(e)),
        first_occurrences(visited.push(e)) == first_occurrences(visited).push(e),
{
    let kept = first_occurrences(visited);
    let next = visited.push(e);
    let last = visited.len() as int;
    assert(next =~= visited + seq![e]);
    assert(next.drop_last() =~= visited);
    assert forall|h: int| 0 <= h < next.len() implies !clash_at(next, h) by {
        if h < last {
            lemma_clash_at_prefix(visited, seq![e], h);
        } else if clash_at(next, last) {
            let g = choose|g: int|
                0 <= g < last && (#[trigger] next[g]).0 == next[last].0 && next[g].1
                    != next[last].1;
            assert(next[g] == visited[g]);
            lemma_kept_names(visited, g);
        }
    }
}

/// Visiting the last dimension of a clash-free sequence once more changes
/// nothing and brings no clash.
pub proof fn lemma_visit_again(w: Seq<Dimension>)
    requires
        clash_free(w),
        w.len() > 0,
    ensures
        clash_free(w.push(w.last())),
        first_occurrences(w.push(w.last())) == first_occurrences(w),
{
    lemma_kept_all(w, w.len() - 1);
    let kept = first_occurrences(w);
    let p = choose|p: int| 0 <= p < kept.len() && kept[p] == w.last();
    lemma_visit_known(w, w.last(), p);
}

/// Where both heads carry one name with different labels, the walk's first
/// clash is at one of the two and concerns that name.
pub proof fn lemma_pair_conflict(
    visited: Seq<Dimension>,
    l: Dimension,
    r: Dimension,
    after: Seq<Dimension>,
)
    requires
        clash_free(visited),
        l.0 == r.0,
        l.1 != r.1,
    ensures
        exists|k: int|
            first_clash(visited.push(l).push(r) + after, k) && #[trigger] (visited.push(l).push(r)
                + after)[k].0 == l.0,
{
    let kept = first_occurrences(visited);
    let once = visited.push(l);
    let whole = once.push(r) + after;
    let at = visited.len() as int;
    if exists|p: int| 0 <= p < kept.len() && (#[trigger] kept[p]).0 == l.0 && kept[p].1 != l.1 {
        let p = choose|p: int|
            0 <= p < kept.len() && (#[trigger] kept[p]).0 == l.0 && kept[p].1 != l.1;
        lemma_visit_clash(visited, l, p);
        assert(whole =~= once + (seq![r] + after));
        lemma_first_clash_prefix(once, seq![r] + after, at);
        assert(whole[at].0 == l.0);
    } else {
        if has_name(kept, l.0) {
            let p = choose|p: int| 0 <= p < kept.len() && (#[trigger] kept[p]).0 == l.0;
            assert(kept[p] == l);
            lemma_visit_known(visited, l, p);
        } else {
            lemma_visit_new(visited, l);
        }
        lemma_kept_all(once, at);
        let kept_once = first_occurrences(once);
        let q = choose|q: int| 0 <= q < kept_once.len() && kept_once[q] == l;
        lemma_visit_clash(once, r, q);
        lemma_first_clash_prefix(once.push(r), after, at + 1);
        assert(whole[at + 1].0 == l.0);
    }
}

/// `e` is one of the dimensions of `side` from position `start` on.
pub open spec fn from_side(side: Seq<Dimension>, start: int, e: Dimension) -> bool {
    exists|a: int| start <= a < side.len() && #[trigger] side[a] == e
}

/// Each dimension that the walk visits comes from one of the two sides, from
/// its cursor on.
pub proof fn lemma_walk_origin(l: Seq<Dimension>, r: Seq<Dimension>, i: int, j: int, k: int)
    requires
        0 <= i,
        0 <= j,
        0 <= k < walk_from(l, r, i, j).len(),
    ensures
        from_side(l, i, walk_from(l, r, i, j)[k]) || from_side(r, j, walk_from(l, r, i, j)[k]),
    decreases left_of(l, i) + left_of(r, j),
{
    let w = walk_from(l, r, i, j);
    if i >= l.len() && j >= r.len() {
    } else if i < l.len() && j < r.len() && l[i].0 == r[j].0 {
        if k == 0 {
            assert(l[i] == w[k]);
        } else if k == 1 {
            assert(r[j] == w[k]);
        } else {
            lemma_walk_origin(l, r, i + 1, j + 1, k - 2);
            let x = walk_from(l, r, i + 1, j + 1)[k - 2];
            assert(x == w[k]);
            if from_side(l, i + 1, x) {
                let a = choose|a: int| i + 1 <= a < l.len() && #[trigger] l[a] == x;
                assert(l[a] == w[k]);
            } else {
                let b = choose|b: int| j + 1 <= b < r.len() && #[trigger] r[b] == x;
                assert(r[b] == w[k]);
            }
        }
    } else if j >= r.len() || (i < l.len() && takes_lhs(l[i], r[j])) {
        if k == 0 {
            assert(l[i] == w[k]);
        } else {
            lemma_walk_origin(l, r, i + 1, j, k - 1);
            let x = walk_from(l, r, i + 1, j)[k - 1];
            assert(x == w[k]);
            if from_side(l, i + 1, x) {
                let a = choose|a: int| i + 1 <= a < l.len() && #[trigger] l[a] == x;
                assert(l[a] == w[k]);
            }
        }
    } else {
        if k == 0 {
            assert(r[j] == w[k]);
        } else {
            lemma_walk_origin(l, r, i, j + 1, k - 1);
            let x = walk_from(l, r, i, j + 1)[k - 1];
            assert(x == w[k]);
            if from_side(r, j + 1, x) {
                let b = choose|b: int| j + 1 <= b < r.len() && #[trigger] r[b] == x;
                assert(r[b] == w[k]);
            }
        }
    }
}

/// The walk visits every dimension of the left side from its cursor on.
pub proof fn lemma_walk_covers_lhs(l: Seq<Dimension>, r: Seq<Dimension>, i: int, j: int, a: int)
    requires
        0 <= i <= a < l.len(),
        0 <= j,
    ensures
        walk_from(l, r, i, j).contains(l[a]),
    decreases left_of(l, i) + left_of(r, j),
{
    let w = walk_from(l, r, i, j);
    if j < r.len() && l[i].0 == r[j].0 {
        if a == i {
            assert(w[0] == l[a]);
        } else {
            lemma_walk_covers_lhs(l, r, i + 1, j + 1, a);
            let tail = walk_from(l, r, i + 1, j + 1);
            let t = choose|t: int| 0 <= t < tail.len() && tail[t] == l[a];
            assert(w[t + 2] == l[a]);
        }
    } else if j >= r.len() || takes_lhs(l[i], r[j]) {
        if a == i {
            assert(w[0] == l[a]);
        } else {
            lemma_walk_covers_lhs(l, r, i + 1, j, a);
            let tail = walk_from(l, r, i + 1, j);
            let t = choose|t: int| 0 <= t < tail.len() && tail[t] == l[a];
            assert(w[t + 1] == l[a]);
        }
    } else {
        lemma_walk_covers_lhs(l, r, i, j + 1, a);
        let tail = walk_from(l, r, i, j + 1);
            let t = choose|t: int| 0 <= t < tail.len() && tail[t] == l[a];
        assert(w[t + 1] == l[a]);
    }
}

/// The walk visits every dimension of the right side from its cursor on.
pub proof fn lemma_walk_covers_rhs(l: Seq<Dimension>, r: Seq<Dimension>, i: int, j: int, b: int)
    requires
        0 <= i,
        0 <= j <= b < r.len(),
    ensures
        walk_from(l, r, i, j).contains(r[b]),
    decreases left_of(l, i) + left_of(r, j),
{
    let w = walk_from(l, r, i, j);
    if i < l.len() && l[i].0 == r[j].0 {
        if b == j {
            assert(w[1] == r[b]);
        } else {
            lemma_walk_covers_rhs(l, r, i + 1, j + 1, b);
            let tail = walk_from(l, r, i + 1, j + 1);
            let t = choose|t: int| 0 <= t < tail.len() && tail[t] == r[b];
            assert(w[t + 2] == r[b]);
        }
    } else if i < l.len() && takes_lhs(l[i], r[j]) {
        lemma_walk_covers_rhs(l, r, i + 1, j, b);
        let tail = walk_from(l, r, i + 1, j);
            let t = choose|t: int| 0 <= t < tail.len() && tail[t] == r[b];
        assert(w[t + 1] == r[b]);
    } else {
        if b == j {
            assert(w[0] == r[b]);
        } else {
            lemma_walk_covers_rhs(l, r, i, j + 1, b);
            let tail = walk_from(l, r, i, j + 1);
            let t = choose|t: int| 0 <= t < tail.len() && tail[t] == r[b];
            assert(w[t + 1] == r[b]);
        }
    }
}

/// A merge is refused exactly where the two registries conflict: the walk
/// over two valid registries meets a clash if and only if some name has
/// different labels in the two.
pub proof fn lemma_clash_iff_conflict(l: Seq<Dimension>, r: Seq<Dimension>)
    requires
        names_distinct(l),
        names_distinct(r),
    ensures
        clash_free(merge_walk(l, r)) <==> compatible(l, r),
{
    let w = merge_walk(l, r);
    if !clash_free(w) {
        let k = choose|k: int| 0 <= k < w.len() && clash_at(w, k);
        let p = choose|p: int| 0 <= p < k && (#[trigger] w[p]).0 == w[k].0 && w[p].1 != w[k].1;
        lemma_walk_origin(l, r, 0, 0, k);
        lemma_walk_origin(l, r, 0, 0, p);
        if from_side(l, 0, w[k]) {
            let a = choose|a: int| 0 <= a < l.len() && #[trigger] l[a] == w[k];
            if from_side(l, 0, w[p]) {
                let c = choose|c: int| 0 <= c < l.len() && #[trigger] l[c] == w[p];
                assert(l[a].0 == l[c].0);
                assert(a == c);
            } else {
                let b = choose|b: int| 0 <= b < r.len() && #[trigger] r[b] == w[p];
                assert(l[a].0 == r[b].0 && l[a].1 != r[b].1);
            }
        } else {
            let b = choose|b: int| 0 <= b < r.len() && #[trigger] r[b] == w[k];
            if from_side(r, 0, w[p]) {
                let d = choose|d: int| 0 <= d < r.len() && #[trigger] r[d] == w[p];
                assert(r[b].0 == r[d].0);
                assert(b == d);
            } else {
                let a = choose|a: int| 0 <= a < l.len() && #[trigger] l[a] == w[p];
                assert(l[a].0 == r[b].0 && l[a].1 != r[b].1);
            }
        }
        assert(!compatible(l, r));
    }
    if !compatible(l, r) {
        let (a, b) = choose|a: int, b: int|
            #![trigger l[a], r[b]]
            0 <= a < l.len() && 0 <= b < r.len() && l[a].0 == r[b].0 && l[a].1 != r[b].1;
        lemma_walk_covers_lhs(l, r, 0, 0, a);
        lemma_walk_covers_rhs(l, r, 0, 0, b);
        let p = choose|p: int| 0 <= p < w.len() && w[p] == l[a];
        let q = choose|q: int| 0 <= q < w.len() && w[q] == r[b];
        if p < q {
            assert(clash_at(w, q));
        } else {
            assert(clash_at(w, p));
        }
        assert(!clash_free(w));
    }
}

/// Merging two valid registries that do not conflict keeps every dimension
/// of both, and nothing else.
pub proof fn lemma_merged_is_union(l: Seq<Dimension>, r: Seq<Dimension>)
    requires
        names_distinct(l),
        names_distinct(r),
        compatible(l, r),
    ensures
        names_distinct(merged(l, r)),
        forall|a: int| 0 <= a < l.len() ==> merged(l, r).contains(#[trigger] l[a]),
        forall|b: int| 0 <= b < r.len() ==> merged(l, r).contains(#[trigger] r[b]),
        forall|p: int|
            0 <= p < merged(l, r).len() ==> l.contains(#[trigger] merged(l, r)[p]) || r.contains(
                merged(l, r)[p],
            ),
{
    let w = merge_walk(l, r);
    let all = merged(l, r);
    lemma_clash_iff_conflict(l, r);
    lemma_kept_distinct(w);
    assert forall|a: int| 0 <= a < l.len() implies all.contains(#[trigger] l[a]) by {
        lemma_walk_covers_lhs(l, r, 0, 0, a);
        let k = choose|k: int| 0 <= k < w.len() && w[k] == l[a];
        lemma_kept_all(w, k);
    }
    assert forall|b: int| 0 <= b < r.len() implies all.contains(#[trigger] r[b]) by {
        lemma_walk_covers_rhs(l, r, 0, 0, b);
        let k = choose|k: int| 0 <= k < w.len() && w[k] == r[b];
        lemma_kept_all(w, k);
    }
    assert forall|p: int| 0 <= p < all.len() implies l.contains(#[trigger] all[p]) || r.contains(
        all[p],
    ) by {
        lemma_kept_from(w, p);
        let k = choose|k: int| 0 <= k < w.len() && w[k] == all[p];
        lemma_walk_origin(l, r, 0, 0, k);
        if from_side(l, 0, w[k]) {
            let a = choose|a: int| 0 <= a < l.len() && #[trigger] l[a] == w[k];
            assert(l[a] == all[p]);
        } else {
            let b = choose|b: int| 0 <= b < r.len() && #[trigger] r[b] == w[k];
            assert(r[b] == all[p]);
        }
    }
}

/// The walk of a valid registry against itself, taken up after the first
/// `i` dimensions of both sides.
proof fn lemma_self_walk(a: Seq<Dimension>, i: int, visited: Seq<Dimension>)
    requires
        names_distinct(a),
        0 <= i <= a.len(),
        clash_free(visited),
        first_occurrences(visited) == a.subrange(0, i),
        merge_walk(a, a) == visited + walk_from(a, a, i, i),
    ensures
        clash_free(merge_walk(a, a)),
        merged(a, a) == a,
    decreases a.len() - i,
{
    if i == a.len() {
        assert(merge_walk(a, a) =~= visited);
        assert(a.subrange(0, i) =~= a);
    } else {
        let e = a[i];
        let once = visited.push(e);
        let twice = once.push(e);
        assert(!has_name(a.subrange(0, i), e.0)) by {
            if has_name(a.subrange(0, i), e.0) {
                let p = choose|p: int| 0 <= p < i && (#[trigger] a.subrange(0, i)[p]).0 == e.0;
                assert(a[p].0 == a[i].0);
            }
        }
        lemma_visit_new(visited, e);
        assert(first_occurrences(once)[i] == e);
        lemma_visit_known(once, e, i);
        assert(first_occurrences(twice) =~= a.subrange(0, i + 1));
        assert(merge_walk(a, a) =~= twice + walk_from(a, a, i + 1, i + 1));
        lemma_self_walk(a, i + 1, twice);
    }
}

/// Merging a valid registry with itself gives that registry back.
pub proof fn lemma_merge_self(a: Seq<Dimension>)
    requires
        names_distinct(a),
    ensures
        compatible(a, a),
        merged(a, a) == a,
{
    let none = Seq::<Dimension>::empty();
    assert(first_occurrences(none) =~= a.subrange(0, 0));
    assert(merge_walk(a, a) =~= none + walk_from(a, a, 0, 0));
    lemma_self_walk(a, 0, none);
    lemma_clash_iff_conflict(a, a);
}

/// Different characters have different code points.
proof fn lemma_code_points_differ(c: char, d: char)
    requires
        c != d,
    ensures
        (c as u32) != (d as u32),
{
}

/// Every name is at most itself.
pub proof fn lemma_lex_le_reflexive(a: Seq<char>)
    ensures
        lex_le(a, a),
    decreases a.len(),
{
    if a.len() > 0 {
        lemma_lex_le_reflexive(a.drop_first());
    }
}

/// Of two names, one is at most the other.
pub proof fn lemma_lex_le_total(a: Seq<char>, b: Seq<char>)
    ensures
        lex_le(a, b) || lex_le(b, a),
    decreases a.len(),
{
    if a.len() > 0 && b.len() > 0 {
        if a[0] == b[0] {
            lemma_lex_le_total(a.drop_first(), b.drop_first());
        } else {
            lemma_code_points_differ(a[0], b[0]);
        }
    }
}

/// The order of names is transitive.
pub proof fn lemma_lex_le_transitive(a: Seq<char>, b: Seq<char>, c: Seq<char>)
    requires
        lex_le(a, b),
        lex_le(b, c),
    ensures
        lex_le(a, c),
    decreases a.len(),
{
    if a.len() > 0 && b.len() > 0 && c.len() > 0 && a[0] == b[0] && b[0] == c[0] {
        lemma_lex_le_transitive(a.drop_first(), b.drop_first(), c.drop_first());
    }
}

/// Of two dimensions, one goes before the other or ties with it.
pub proof fn lemma_takes_lhs_total(a: Dimension, b: Dimension)
    ensures
        takes_lhs(a, b) || takes_lhs(b, a),
{
    lemma_lex_le_total(a.0, b.0);
}

/// Going before, or tying, is transitive.
pub proof fn lemma_takes_lhs_transitive(a: Dimension, b: Dimension, c: Dimension)
    requires
        takes_lhs(a, b),
        takes_lhs(b, c),
    ensures
        takes_lhs(a, c),
{
    if a.1.len() == b.1.len() && b.1.len() == c.1.len() {
        lemma_lex_le_transitive(a.0, b.0, c.0);
    }
}

/// The dimensions stand in ascending order of cardinality, those of equal
/// cardinality in ascending order of name.
pub open spec fn ordered(w: Seq<Dimension>) -> bool {
    forall|i: int, j: int|
        #![trigger w[i], w[j]]
        0 <= i < j < w.len() ==> takes_lhs(w[i], w[j])
}

/// `x` goes before, or ties with, every dimension of `side` from `start` on.
pub open spec fn below_side(x: Dimension, side: Seq<Dimension>, start: int) -> bool {
    forall|a: int| start <= a < side.len() ==> takes_lhs(x, #[trigger] side[a])
}

/// What goes before both sides from their cursors on goes before everything
/// that the walk visits from there.
proof fn lemma_below_walk(
    x: Dimension,
    l: Seq<Dimension>,
    r: Seq<Dimension>,
    i: int,
    j: int,
    k: int,
)
    requires
        0 <= i,
        0 <= j,
        below_side(x, l, i),
        below_side(x, r, j),
        0 <= k < walk_from(l, r, i, j).len(),
    ensures
        takes_lhs(x, walk_from(l, r, i, j)[k]),
{
    let w = walk_from(l, r, i, j);
    lemma_walk_origin(l, r, i, j, k);
    if from_side(l, i, w[k]) {
        let a = choose|a: int| i <= a < l.len() && #[trigger] l[a] == w[k];
        assert(takes_lhs(x, l[a]));
    } else {
        let b = choose|b: int| j <= b < r.len() && #[trigger] r[b] == w[k];
        assert(takes_lhs(x, r[b]));
    }
}

/// In an ordered side, the dimension at `i` goes before, or ties with, all
/// from `i` on.
proof fn lemma_head_below_side(side: Seq<Dimension>, i: int)
    requires
        ordered(side),
        0 <= i < side.len(),
    ensures
        below_side(side[i], side, i),
{
    lemma_lex_le_reflexive(side[i].0);
}

/// What goes before `y` goes before everything that `y` goes before.
proof fn lemma_below_side_via(x: Dimension, y: Dimension, side: Seq<Dimension>, start: int)
    requires
        takes_lhs(x, y),
        below_side(y, side, start),
    ensures
        below_side(x, side, start),
{
    assert forall|a: int| start <= a < side.len() implies takes_lhs(x, #[trigger] side[a]) by {
        lemma_takes_lhs_transitive(x, y, side[a]);
    }
}

/// The walk over two ordered registries that do not conflict is ordered.
pub proof fn lemma_walk_ordered(l: Seq<Dimension>, r: Seq<Dimension>, i: int, j: int)
    requires
        ordered(l),
        ordered(r),
        compatible(l, r),
        0 <= i,
        0 <= j,
    ensures
        ordered(walk_from(l, r, i, j)),
    decreases left_of(l, i) + left_of(r, j),
{
    let w = walk_from(l, r, i, j);
    if i >= l.len() && j >= r.len() {
    } else if i < l.len() && j < r.len() && l[i].0 == r[j].0 {
        let tail = walk_from(l, r, i + 1, j + 1);
        lemma_walk_ordered(l, r, i + 1, j + 1);
        assert(l[i].1 == r[j].1);
        assert(l[i] == r[j]);
        lemma_head_below_side(l, i);
        lemma_head_below_side(r, j);
        assert(below_side(l[i], l, i + 1));
        assert(below_side(l[i], r, j + 1));
        assert forall|p: int, q: int| 0 <= p < q < w.len() implies takes_lhs(
            #[trigger] w[p],
            #[trigger] w[q],
        ) by {
            if q == 1 {
                lemma_lex_le_reflexive(l[i].0);
            } else if p <= 1 {
                lemma_below_walk(l[i], l, r, i + 1, j + 1, q - 2);
                assert(w[q] == tail[q - 2]);
            } else {
                assert(w[p] == tail[p - 2] && w[q] == tail[q - 2]);
            }
        }
    } else if j >= r.len() || (i < l.len() && takes_lhs(l[i], r[j])) {
        let tail = walk_from(l, r, i + 1, j);
        lemma_walk_ordered(l, r, i + 1, j);
        lemma_head_below_side(l, i);
        assert(below_side(l[i], l, i + 1));
        if j < r.len() {
            lemma_head_below_side(r, j);
            lemma_below_side_via(l[i], r[j], r, j);
        }
        assert forall|p: int, q: int| 0 <= p < q < w.len() implies takes_lhs(
            #[trigger] w[p],
            #[trigger] w[q],
        ) by {
            if p == 0 {
                lemma_below_walk(l[i], l, r, i + 1, j, q - 1);
                assert(w[q] == tail[q - 1]);
            } else {
                assert(w[p] == tail[p - 1] && w[q] == tail[q - 1]);
            }
        }
    } else {
        let tail = walk_from(l, r, i, j + 1);
        lemma_walk_ordered(l, r, i, j + 1);
        lemma_head_below_side(r, j);
        assert(below_side(r[j], r, j + 1));
        if i < l.len() {
            lemma_takes_lhs_total(l[i], r[j]);
            lemma_head_below_side(l, i);
            lemma_below_side_via(r[j], l[i], l, i);
        }
        assert forall|p: int, q: int| 0 <= p < q < w.len() implies takes_lhs(
            #[trigger] w[p],
            #[trigger] w[q],
        ) by {
            if p == 0 {
                lemma_below_walk(r[j], l, r, i, j + 1, q - 1);
                assert(w[q] == tail[q - 1]);
            } else {
                assert(w[p] == tail[p - 1] && w[q] == tail[q - 1]);
            }
        }
    }
}

/// Leaving out repeated names keeps the order.
pub proof fn lemma_kept_ordered(w: Seq<Dimension>)
    requires
        ordered(w),
    ensures
        ordered(first_occurrences(w)),
    decreases w.len(),
{
    if w.len() > 0 {
        let front = w.drop_last();
        let kept = first_occurrences(front);
        let all = first_occurrences(w);
        assert forall|i: int, j: int| 0 <= i < j < front.len() implies takes_lhs(
            #[trigger] front[i],
            #[trigger] front[j],
        ) by {
            assert(takes_lhs(w[i], w[j]));
        }
        lemma_kept_ordered(front);
        if !has_name(kept, w.last().0) {
            assert forall|p: int, q: int| 0 <= p < q < all.len() implies takes_lhs(
                #[trigger] all[p],
                #[trigger] all[q],
            ) by {
                if q < kept.len() {
                    assert(takes_lhs(kept[p], kept[q]));
                } else {
                    lemma_kept_from(front, p);
                    let k = choose|k: int| 0 <= k < front.len() && front[k] == kept[p];
                    assert(takes_lhs(w[k], w[w.len() - 1]));
                }
            }
        }
    }
}

/// Merging two registries that are each in ascending order of cardinality,
/// ties in ascending order of name, and that do not conflict, gives a
/// registry in that order.
pub proof fn lemma_merged_ordered(l: Seq<Dimension>, r: Seq<Dimension>)
    requires
        ordered(l),
        ordered(r),
        compatible(l, r),
    ensures
        ordered(merged(l, r)),
{
    lemma_walk_ordered(l, r, 0, 0);
    lemma_kept_ordered(merge_walk(l, r));
}

} // verus!
