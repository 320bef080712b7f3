//! The forest of pack entries: each entry is a base object or a delta whose
//! base is its parent. Children always come after their parent in the node
//! array, so the parent relation cannot form a cycle.
use crate::eager::{flatten, well_chunked, Chunker};
use vstd::prelude::*;
use vstd::set_lib::{lemma_int_range, lemma_len_subset, set_int_range};

verus! {

/// The half-open byte range `[start, end)` of one entry within a pack.
#[derive(Clone, Copy, Debug, PartialEq, Eq, Structural)]
pub struct EntrySlice {
    pub start: u64,
    pub end: u64,
}

/// A node of a traversed tree: where its entry lies, and what the inspection
/// made of it.
pub struct Item<T> {
    pub offset: u64,
    pub next_offset: u64,
    pub data: T,
}

/// `c` is one of the children of `p`.
pub open spec fn is_child(ch: Seq<Seq<usize>>, p: usize, c: usize) -> bool {
    &&& p < ch.len()
    &&& ch[p as int].contains(c)
}

/// No node has `x` as a child.
pub open spec fn is_root(ch: Seq<Seq<usize>>, x: usize) -> bool {
    forall|p: usize| !#[trigger] is_child(ch, p, x)
}

/// The child lists describe a forest: each child comes after its parent and
/// within bounds, no node has two parents, and no child is listed twice.
pub open spec fn forest(ch: Seq<Seq<usize>>) -> bool {
    &&& forall|p: usize, i: int|
        p < ch.len() && 0 <= i < ch[p as int].len() ==> p < #[trigger] ch[p as int][i] < ch.len()
    &&& forall|p: usize, q: usize, c: usize|
        #[trigger] is_child(ch, p, c) && #[trigger] is_child(ch, q, c) ==> p == q
    &&& forall|p: usize| p < ch.len() ==> (#[trigger] ch[p as int]).no_duplicates()
}

/// The node indices of a visiting order.
pub open spec fn nodes(order: Seq<(usize, u16)>) -> Seq<usize> {
    order.map_values(|e: (usize, u16)| e.0)
}

/// `order` visits each node reachable from `roots` once, each one after its
/// parent, and nothing else.
pub open spec fn visits_subtrees(ch: Seq<Seq<usize>>, roots: Seq<usize>, order: Seq<usize>) -> bool {
    &&& order.no_duplicates()
    &&& forall|k: int| 0 <= k < order.len() ==> #[trigger] order[k] < ch.len()
    &&& forall|x: usize| #[trigger] roots.contains(x) ==> order.contains(x)
    &&& forall|a: int, c: usize|
        0 <= a < order.len() && #[trigger] is_child(ch, order[a], c) ==> order.contains(c)
    &&& forall|a: int, b: int|
        0 <= a < order.len() && 0 <= b < order.len() && #[trigger] is_child(ch, order[a], order[b])
            ==> a < b
    &&& forall|k: int|
        0 <= k < order.len() ==> roots.contains(#[trigger] order[k]) || exists|j: int|
            0 <= j < k && is_child(ch, #[trigger] order[j], order[k])
}

/// Each of `roots` is a root of the forest and within bounds, and none is
/// listed twice.
pub open spec fn roots_ok(ch: Seq<Seq<usize>>, roots: Seq<usize>) -> bool {
    &&& roots.no_duplicates()
    &&& forall|k: int| 0 <= k < roots.len() ==> #[trigger] roots[k] < ch.len() && is_root(ch, roots[k])
}

/// What holds of a depth-first walk between steps: `on` was visited, `sn`
/// waits on the stack.
spec fn walk_inv(ch: Seq<Seq<usize>>, rs: Seq<usize>, on: Seq<usize>, sn: Seq<usize>) -> bool {
    &&& forall|k: int| 0 <= k < on.len() ==> #[trigger] on[k] < ch.len()
    &&& forall|k: int| 0 <= k < sn.len() ==> #[trigger] sn[k] < ch.len()
    &&& on.no_duplicates()
    &&& sn.no_duplicates()
    &&& forall|a: int, b: int| 0 <= a < on.len() && 0 <= b < sn.len() ==> #[trigger] on[a] != #[trigger] sn[b]
    &&& forall|x: usize| #[trigger] rs.contains(x) ==> on.contains(x) || sn.contains(x)
    &&& forall|k: int|
        0 <= k < sn.len() ==> rs.contains(#[trigger] sn[k]) || exists|j: int|
            0 <= j < on.len() && is_child(ch, #[trigger] on[j], sn[k])
    &&& forall|k: int|
        0 <= k < on.len() ==> rs.contains(#[trigger] on[k]) || exists|j: int|
            0 <= j < k && is_child(ch, #[trigger] on[j], on[k])
    &&& forall|a: int, b: int|
        0 <= a < on.len() && 0 <= b < on.len() && #[trigger] is_child(ch, on[a], on[b]) ==> a < b
    &&& forall|a: int, c: usize|
        0 <= a < on.len() && #[trigger] is_child(ch, on[a], c) ==> on.contains(c) || sn.contains(c)
}

proof fn lemma_walk_bounded(ch: Seq<Seq<usize>>, rs: Seq<usize>, on: Seq<usize>, sn: Seq<usize>)
    requires
        walk_inv(ch, rs, on, sn),
    ensures
        on.len() + sn.len() <= ch.len(),
{
    let all = on + sn;
    assert forall|a: int, b: int| 0 <= a < all.len() && 0 <= b < all.len() && a != b implies all[a]
        != all[b] by {
        if a < on.len() && b >= on.len() {
            assert(on[a] != sn[b - on.len()]);
        } else if a >= on.len() && b < on.len() {
            assert(on[b] != sn[a - on.len()]);
        }
    }
    assert forall|k: int| 0 <= k < all.len() implies #[trigger] all[k] < ch.len() by {
        if k >= on.len() {
            assert(all[k] == sn[k - on.len()]);
        }
    }
    lemma_distinct_bounded(all, ch.len() as int);
}

proof fn lemma_walk_done(ch: Seq<Seq<usize>>, rs: Seq<usize>, on: Seq<usize>, sn: Seq<usize>)
    requires
        walk_inv(ch, rs, on, sn),
        sn.len() == 0,
    ensures
        visits_subtrees(ch, rs, on),
        forall|p: usize, c: usize| on.contains(p) && #[trigger] is_child(ch, p, c) ==> on.contains(c),
{
    assert forall|p: usize, c: usize| on.contains(p) && #[trigger] is_child(ch, p, c) implies on.contains(c) by {
        let a = choose|a: int| 0 <= a < on.len() && on[a] == p;
        assert(is_child(ch, on[a], c));
    }
}

/// One step of the walk: `x`, the top of the stack, is visited, and its
/// children take its place on the stack, the first one on top.
proof fn lemma_walk_step(ch: Seq<Seq<usize>>, rs: Seq<usize>, on: Seq<usize>, sn: Seq<usize>, sn2: Seq<usize>)
    requires
        forest(ch),
        roots_ok(ch, rs),
        walk_inv(ch, rs, on, sn),
        sn.len() > 0,
        sn2.len() == sn.len() - 1 + ch[sn.last() as int].len(),
        forall|t: int| 0 <= t < sn.len() - 1 ==> #[trigger] sn2[t] == sn[t],
        forall|t: int|
            0 <= t < ch[sn.last() as int].len() ==> #[trigger] sn2[sn.len() - 1 + t]
                == ch[sn.last() as int][ch[sn.last() as int].len() - 1 - t],
    ensures
        walk_inv(ch, rs, on.push(sn.last()), sn2),
        !on.contains(sn.last()),
        forall|c: usize|
            #[trigger] is_child(ch, sn.last(), c) ==> !rs.contains(c) && !on.contains(c) && !sn.contains(c)
                && sn.last() < c,
{
    let x = sn.last();
    let m = sn.len() - 1;
    let cl = ch[x as int];
    let len = cl.len();
    let on2 = on.push(x);
    assert(sn[m] == x);
    assert(x < ch.len());
    assert(!on.contains(x)) by {
        if on.contains(x) {
            let a = choose|a: int| 0 <= a < on.len() && on[a] == x;
            assert(on[a] != sn[m]);
        }
    }
    // The children of x were not reached before.
    assert forall|c: usize| #[trigger] is_child(ch, x, c) implies !rs.contains(c) && !on.contains(c)
        && !sn.contains(c) && x < c by {
        let i = choose|i: int| 0 <= i < cl.len() && cl[i] == c;
        assert(x < cl[i]);
        if rs.contains(c) {
            let k = choose|k: int| 0 <= k < rs.len() && rs[k] == c;
            assert(is_root(ch, rs[k]));
        }
        if on.contains(c) {
            let k = choose|k: int| 0 <= k < on.len() && on[k] == c;
            let j = choose|j: int| 0 <= j < k && is_child(ch, #[trigger] on[j], on[k]);
            assert(is_child(ch, on[j], c));
        }
        if sn.contains(c) {
            let k = choose|k: int| 0 <= k < sn.len() && sn[k] == c;
            let j = choose|j: int| 0 <= j < on.len() && is_child(ch, #[trigger] on[j], sn[k]);
            assert(is_child(ch, on[j], c));
        }
    }
    assert forall|t: int| 0 <= t < len implies #[trigger] is_child(ch, x, sn2[m + t]) by {
        assert(cl[len - 1 - t] == sn2[m + t]);
    }
    assert forall|k: int| 0 <= k < on2.len() implies #[trigger] on2[k] < ch.len() by {
        if k < on.len() {
            assert(on2[k] == on[k]);
        }
    }
    assert forall|k: int| 0 <= k < sn2.len() implies #[trigger] sn2[k] < ch.len() by {
        if k >= m {
            let t = k - m;
            assert(is_child(ch, x, sn2[m + t]));
            assert(sn2[m + t] == cl[len - 1 - t]);
        }
    }
    assert forall|a: int, b: int| 0 <= a < on2.len() && 0 <= b < on2.len() && a != b implies on2[a]
        != on2[b] by {
        if a < on.len() && b < on.len() {
            assert(on[a] != on[b]);
        } else if a < on.len() {
            assert(on2[a] == on[a]);
        } else if b < on.len() {
            assert(on2[b] == on[b]);
        }
    }
    assert forall|a: int, b: int| 0 <= a < sn2.len() && 0 <= b < sn2.len() && a != b implies sn2[a]
        != sn2[b] by {
        if a < m && b < m {
            assert(sn[a] != sn[b]);
        } else if a < m {
            let t = b - m;
            assert(is_child(ch, x, sn2[m + t]));
            assert(sn2[a] == sn[a]);
            assert(sn.contains(sn[a]));
        } else if b < m {
            let t = a - m;
            assert(is_child(ch, x, sn2[m + t]));
            assert(sn2[b] == sn[b]);
            assert(sn.contains(sn[b]));
        } else {
            let ta = a - m;
            let tb = b - m;
            assert(sn2[m + ta] == cl[len - 1 - ta]);
            assert(sn2[m + tb] == cl[len - 1 - tb]);
            assert(cl[len - 1 - ta] != cl[len - 1 - tb]);
        }
    }
    assert forall|a: int, b: int| 0 <= a < on2.len() && 0 <= b < sn2.len() implies #[trigger] on2[a]
        != #[trigger] sn2[b] by {
        if b >= m {
            let t = b - m;
            assert(is_child(ch, x, sn2[m + t]));
            if a < on.len() {
                assert(on.contains(on[a]));
                assert(on2[a] == on[a]);
            }
        } else if a < on.len() {
            assert(on[a] != sn[b]);
            assert(on2[a] == on[a]);
        } else {
            assert(sn[b] != sn[m]);
        }
    }
    assert forall|y: usize| #[trigger] rs.contains(y) implies on2.contains(y) || sn2.contains(y) by {
        if on.contains(y) {
            let a = choose|a: int| 0 <= a < on.len() && on[a] == y;
            assert(on2[a] == y);
        } else {
            let p = choose|p: int| 0 <= p < sn.len() && sn[p] == y;
            if p == m {
                assert(on2[on.len() as int] == y);
            } else {
                assert(sn2[p] == y);
            }
        }
    }
    assert forall|k: int| 0 <= k < sn2.len() implies rs.contains(#[trigger] sn2[k]) || exists|j: int|
        0 <= j < on2.len() && is_child(ch, #[trigger] on2[j], sn2[k]) by {
        if k >= m {
            let t = k - m;
            assert(is_child(ch, x, sn2[m + t]));
            assert(on2[on.len() as int] == x);
        } else {
            assert(sn2[k] == sn[k]);
            if !rs.contains(sn[k]) {
                let j = choose|j: int| 0 <= j < on.len() && is_child(ch, #[trigger] on[j], sn[k]);
                assert(on2[j] == on[j]);
            }
        }
    }
    assert forall|k: int| 0 <= k < on2.len() implies rs.contains(#[trigger] on2[k]) || exists|j: int|
        0 <= j < k && is_child(ch, #[trigger] on2[j], on2[k]) by {
        if k < on.len() {
            assert(on2[k] == on[k]);
            if !rs.contains(on[k]) {
                let j = choose|j: int| 0 <= j < k && is_child(ch, #[trigger] on[j], on[k]);
                assert(on2[j] == on[j]);
            }
        } else {
            assert(on2[k] == sn[m]);
            if !rs.contains(sn[m]) {
                let j = choose|j: int| 0 <= j < on.len() && is_child(ch, #[trigger] on[j], sn[m]);
                assert(on2[j] == on[j]);
            }
        }
    }
    assert forall|a: int, b: int|
        0 <= a < on2.len() && 0 <= b < on2.len() && #[trigger] is_child(ch, on2[a], on2[b]) implies a < b by {
        if a == on.len() && b < on.len() {
            assert(on2[b] == on[b]);
            assert(on.contains(on[b]));
        } else if a < on.len() && b < on.len() {
            assert(on2[a] == on[a] && on2[b] == on[b]);
        }
    }
    assert forall|a: int, c: usize|
        0 <= a < on2.len() && #[trigger] is_child(ch, on2[a], c) implies on2.contains(c) || sn2.contains(c) by {
        if a < on.len() {
            assert(on2[a] == on[a]);
            if on.contains(c) {
                let k = choose|k: int| 0 <= k < on.len() && on[k] == c;
                assert(on2[k] == c);
            } else {
                let p = choose|p: int| 0 <= p < sn.len() && sn[p] == c;
                if p == m {
                    assert(on2[on.len() as int] == c);
                } else {
                    assert(sn2[p] == c);
                }
            }
        } else {
            let i = choose|i: int| 0 <= i < len && cl[i] == c;
            assert(sn2[m + (len - 1 - i)] == c);
        }
    }
}

/// Walks from two sets of roots that share no root share no node.
pub proof fn lemma_visits_disjoint(
    ch: Seq<Seq<usize>>,
    r1: Seq<usize>,
    r2: Seq<usize>,
    o1: Seq<usize>,
    o2: Seq<usize>,
    x: usize,
)
    requires
        forest(ch),
        roots_ok(ch, r1),
        roots_ok(ch, r2),
        forall|y: usize| r1.contains(y) ==> !r2.contains(y),
        visits_subtrees(ch, r1, o1),
        visits_subtrees(ch, r2, o2),
    ensures
        !(o1.contains(x) && o2.contains(x)),
    decreases x,
{
    if o1.contains(x) && o2.contains(x) {
        let k1 = choose|k: int| 0 <= k < o1.len() && o1[k] == x;
        let k2 = choose|k: int| 0 <= k < o2.len() && o2[k] == x;
        assert(r1.contains(o1[k1]) || exists|j: int| 0 <= j < k1 && is_child(ch, #[trigger] o1[j], o1[k1]));
        assert(r2.contains(o2[k2]) || exists|j: int| 0 <= j < k2 && is_child(ch, #[trigger] o2[j], o2[k2]));
        if r1.contains(x) {
            let t = choose|t: int| 0 <= t < r1.len() && r1[t] == x;
            assert(is_root(ch, r1[t]));
            if !r2.contains(x) {
                let j = choose|j: int| 0 <= j < k2 && is_child(ch, #[trigger] o2[j], o2[k2]);
                assert(is_child(ch, o2[j], x));
            }
        } else if r2.contains(x) {
            let t = choose|t: int| 0 <= t < r2.len() && r2[t] == x;
            assert(is_root(ch, r2[t]));
            let j = choose|j: int| 0 <= j < k1 && is_child(ch, #[trigger] o1[j], o1[k1]);
            assert(is_child(ch, o1[j], x));
        } else {
            let j1 = choose|j: int| 0 <= j < k1 && is_child(ch, #[trigger] o1[j], o1[k1]);
            let j2 = choose|j: int| 0 <= j < k2 && is_child(ch, #[trigger] o2[j], o2[k2]);
            let p = o1[j1];
            assert(is_child(ch, p, x) && is_child(ch, o2[j2], x));
            assert(o2[j2] == p);
            let i = choose|i: int| 0 <= i < ch[p as int].len() && ch[p as int][i] == x;
            assert(p < ch[p as int][i]);
            lemma_visits_disjoint(ch, r1, r2, o1, o2, p);
        }
    }
}

/// Walks from two sets of roots that share no root, one after the other,
/// form a walk from both sets.
pub proof fn lemma_visits_concat(
    ch: Seq<Seq<usize>>,
    r1: Seq<usize>,
    r2: Seq<usize>,
    o1: Seq<usize>,
    o2: Seq<usize>,
)
    requires
        forest(ch),
        roots_ok(ch, r1),
        roots_ok(ch, r2),
        forall|y: usize| r1.contains(y) ==> !r2.contains(y),
        visits_subtrees(ch, r1, o1),
        visits_subtrees(ch, r2, o2),
    ensures
        visits_subtrees(ch, r1 + r2, o1 + o2),
{
    let r = r1 + r2;
    let o = o1 + o2;
    let m = o1.len();
    assert forall|y: usize| o1.contains(y) implies !o2.contains(y) by {
        lemma_visits_disjoint(ch, r1, r2, o1, o2, y);
    }
    assert forall|k: int| 0 <= k < o.len() implies (k < m ==> o[k] == o1[k]) && (k >= m ==> o[k]
        == o2[k - m]) by {}
    assert forall|a: int, b: int| 0 <= a < o.len() && 0 <= b < o.len() && a != b implies o[a]
        != o[b] by {
        if a < m && b >= m {
            assert(o1.contains(o1[a]));
        } else if a >= m && b < m {
            assert(o1.contains(o1[b]));
        }
    }
    assert forall|k: int| 0 <= k < o.len() implies #[trigger] o[k] < ch.len() by {
        if k >= m {
            assert(o2[k - m] < ch.len());
        }
    }
    assert forall|y: usize| #[trigger] r.contains(y) implies o.contains(y) by {
        let t = choose|t: int| 0 <= t < r.len() && r[t] == y;
        if t < r1.len() {
            assert(r1[t] == y && r1.contains(y));
            let k = choose|k: int| 0 <= k < o1.len() && o1[k] == y;
            assert(o[k] == y);
        } else {
            assert(r2[t - r1.len()] == y && r2.contains(y));
            let k = choose|k: int| 0 <= k < o2.len() && o2[k] == y;
            assert(o[m + k] == y);
        }
    }
    assert forall|a: int, c: usize| 0 <= a < o.len() && #[trigger] is_child(ch, o[a], c) implies o.contains(c) by {
        if a < m {
            assert(is_child(ch, o1[a], c));
            let k = choose|k: int| 0 <= k < o1.len() && o1[k] == c;
            assert(o[k] == c);
        } else {
            let a2 = a - m;
            assert(is_child(ch, o2[a2], c));
            let k = choose|k: int| 0 <= k < o2.len() && o2[k] == c;
            assert(o[m + k] == c);
        }
    }
    assert forall|a: int, b: int|
        0 <= a < o.len() && 0 <= b < o.len() && #[trigger] is_child(ch, o[a], o[b]) implies a < b by {
        if a < m && b < m {
            assert(is_child(ch, o1[a], o1[b]));
        } else if a >= m && b >= m {
            let (a2, b2) = (a - m, b - m);
            assert(is_child(ch, o2[a2], o2[b2]));
        } else if a >= m && b < m {
            let a2 = a - m;
            assert(r1.contains(o1[b]) || exists|j: int| 0 <= j < b && is_child(ch, #[trigger] o1[j], o1[b]));
            if r1.contains(o1[b]) {
                let t = choose|t: int| 0 <= t < r1.len() && r1[t] == o1[b];
                assert(is_root(ch, r1[t]));
            } else {
                let j = choose|j: int| 0 <= j < b && is_child(ch, #[trigger] o1[j], o1[b]);
                assert(o1[j] == o2[a2]);
                assert(o1.contains(o1[j]));
            }
        }
    }
    assert forall|k: int| 0 <= k < o.len() implies r.contains(#[trigger] o[k]) || exists|j: int|
        0 <= j < k && is_child(ch, #[trigger] o[j], o[k]) by {
        if k < m {
            if r1.contains(o1[k]) {
                let t = choose|t: int| 0 <= t < r1.len() && r1[t] == o1[k];
                assert(r[t] == o1[k]);
            } else {
                let j = choose|j: int| 0 <= j < k && is_child(ch, #[trigger] o1[j], o1[k]);
                assert(o[j] == o1[j]);
            }
        } else {
            let k2 = k - m;
            if r2.contains(o2[k2]) {
                let t = choose|t: int| 0 <= t < r2.len() && r2[t] == o2[k2];
                assert(r[r1.len() + t] == o2[k2]);
            } else {
                let j = choose|j: int| 0 <= j < k2 && is_child(ch, #[trigger] o2[j], o2[k2]);
                assert(o[m + j] == o2[j]);
            }
        }
    }
}

/// One level deeper than `l`, staying at the deepest level there is.
pub open spec fn next_level(l: u16) -> u16 {
    if l < u16::MAX {
        (l + 1) as u16
    } else {
        l
    }
}

/// The levels in `s` agree with the visited `order`: a root of `rs` is at
/// level 0, and a node is one level below its parent.
pub open spec fn levels_ok(
    ch: Seq<Seq<usize>>,
    rs: Seq<usize>,
    order: Seq<(usize, u16)>,
    s: Seq<(usize, u16)>,
) -> bool {
    &&& forall|k: int| 0 <= k < s.len() && rs.contains(#[trigger] s[k].0) ==> s[k].1 == 0
    &&& forall|k: int, j: int|
        0 <= k < s.len() && 0 <= j < order.len() && #[trigger] is_child(ch, order[j].0, s[k].0)
            ==> s[k].1 == next_level(order[j].1)
}

proof fn lemma_levels_step(
    ch: Seq<Seq<usize>>,
    rs: Seq<usize>,
    order: Seq<(usize, u16)>,
    stack: Seq<(usize, u16)>,
    stack2: Seq<(usize, u16)>,
)
    requires
        forest(ch),
        roots_ok(ch, rs),
        stack.len() > 0,
        levels_ok(ch, rs, order, order),
        levels_ok(ch, rs, order, stack),
        !nodes(order).contains(stack.last().0),
        forall|c: usize|
            #[trigger] is_child(ch, stack.last().0, c) ==> !rs.contains(c) && !nodes(order).contains(c)
                && !nodes(stack).contains(c) && stack.last().0 < c,
        stack2.len() >= stack.len() - 1,
        forall|t: int| 0 <= t < stack.len() - 1 ==> #[trigger] stack2[t] == stack[t],
        forall|t: int|
            stack.len() - 1 <= t < stack2.len() ==> #[trigger] is_child(ch, stack.last().0, stack2[t].0)
                && stack2[t].1 == next_level(stack.last().1),
    ensures
        levels_ok(ch, rs, order.push(stack.last()), order.push(stack.last())),
        levels_ok(ch, rs, order.push(stack.last()), stack2),
{
    let (x, l) = stack.last();
    let m = stack.len() - 1;
    let o2 = order.push(stack.last());
    let n = order.len() as int;
    assert(stack[m] == (x, l));
    assert forall|k: int| 0 <= k < o2.len() && rs.contains(#[trigger] o2[k].0) implies o2[k].1 == 0 by {
        if k < n {
            assert(o2[k] == order[k]);
        }
    }
    assert forall|k: int| 0 <= k < stack2.len() && rs.contains(#[trigger] stack2[k].0) implies stack2[k].1 == 0 by {
        if k < m {
            assert(stack2[k] == stack[k]);
        } else {
            assert(is_child(ch, x, stack2[k].0));
        }
    }
    assert forall|k: int, j: int|
        0 <= k < o2.len() && 0 <= j < o2.len() && #[trigger] is_child(ch, o2[j].0, o2[k].0) implies o2[k].1
        == next_level(o2[j].1) by {
        if j == n && k < n {
            if is_child(ch, x, o2[k].0) {
                assert(nodes(order)[k] == order[k].0);
            }
        } else if j == n && k == n {
            if is_child(ch, x, x) {
            }
        } else if k == n {
            assert(o2[j] == order[j]);
        } else {
            assert(o2[j] == order[j] && o2[k] == order[k]);
        }
    }
    assert forall|k: int, j: int|
        0 <= k < stack2.len() && 0 <= j < o2.len() && #[trigger] is_child(ch, o2[j].0, stack2[k].0)
            implies stack2[k].1 == next_level(o2[j].1) by {
        if k < m {
            assert(stack2[k] == stack[k]);
            if j == n {
                if is_child(ch, x, stack[k].0) {
                    assert(nodes(stack)[k] == stack[k].0);
                }
            } else {
                assert(o2[j] == order[j]);
            }
        } else {
            assert(is_child(ch, x, stack2[k].0));
            if j < n {
                assert(o2[j] == order[j]);
                if is_child(ch, order[j].0, stack2[k].0) {
                    assert(order[j].0 == x);
                    assert(nodes(order)[j] == x);
                }
            }
        }
    }
}

/// A sequence of distinct indices below `n` has at most `n` elements.
pub proof fn lemma_distinct_bounded(s: Seq<usize>, n: int)
    requires
        n >= 0,
        s.no_duplicates(),
        forall|k: int| 0 <= k < s.len() ==> #[trigger] s[k] < n,
    ensures
        s.len() <= n,
{
    let t = s.map_values(|x: usize| x as int);
    assert forall|i: int, j: int| 0 <= i < t.len() && 0 <= j < t.len() && i != j implies t[i]
        != t[j] by {
        assert(s[i] != s[j]);
    }
    assert(t.no_duplicates());
    t.unique_seq_to_set();
    lemma_int_range(0, n);
    assert forall|x: int| t.to_set().contains(x) implies set_int_range(0, n).contains(x) by {
        let k = choose|k: int| 0 <= k < t.len() && t[k] == x;
        assert(s[k] < n);
    }
    lemma_len_subset(t.to_set(), set_int_range(0, n));
    assert(t.len() == s.len());
}

/// A set of nodes that holds every root and every child of its members holds
/// every node of the forest.
pub proof fn lemma_closed_holds_all(ch: Seq<Seq<usize>>, s: Seq<usize>)
    requires
        forest(ch),
        forall|x: usize| x < ch.len() && is_root(ch, x) ==> s.contains(x),
        forall|p: usize, c: usize| s.contains(p) && #[trigger] is_child(ch, p, c) ==> s.contains(c),
    ensures
        forall|x: usize| x < ch.len() ==> s.contains(x),
{
    assert forall|x: usize| x < ch.len() implies s.contains(x) by {
        lemma_closed_holds_node(ch, s, x);
    }
}

proof fn lemma_closed_holds_node(ch: Seq<Seq<usize>>, s: Seq<usize>, x: usize)
    requires
        forest(ch),
        x < ch.len(),
        forall|x: usize| x < ch.len() && is_root(ch, x) ==> s.contains(x),
        forall|p: usize, c: usize| s.contains(p) && #[trigger] is_child(ch, p, c) ==> s.contains(c),
    ensures
        s.contains(x),
    decreases x,
{
    if !is_root(ch, x) {
        let p = choose|p: usize| is_child(ch, p, x);
        let i = choose|i: int| 0 <= i < ch[p as int].len() && ch[p as int][i] == x;
        assert(p < ch[p as int][i]);
        lemma_closed_holds_node(ch, s, p);
    }
}

/// The child lists after `n`, a new node, was added as a child of `parent`.
pub open spec fn with_child(ch: Seq<Seq<usize>>, parent: usize, n: usize) -> Seq<Seq<usize>> {
    ch.update(parent as int, ch[parent as int].push(n)).push(Seq::empty())
}

proof fn lemma_with_child(ch: Seq<Seq<usize>>, parent: usize)
    requires
        forest(ch),
        parent < ch.len(),
        ch.len() < usize::MAX,
    ensures
        forall|p: usize, c: usize|
            #[trigger] is_child(with_child(ch, parent, ch.len() as usize), p, c) <==> (is_child(
                ch,
                p,
                c,
            ) || (p == parent && c == ch.len())),
        forest(with_child(ch, parent, ch.len() as usize)),
{
    let n = ch.len() as usize;
    let ch2 = with_child(ch, parent, n);
    assert forall|p: usize, c: usize| #[trigger]
        is_child(ch2, p, c) <==> (is_child(ch, p, c) || (p == parent && c == n)) by {
        if p == parent {
            assert(ch2[p as int] == ch[p as int].push(n));
            if ch2[p as int].contains(c) && c != n {
                let i = choose|i: int| 0 <= i < ch2[p as int].len() && ch2[p as int][i] == c;
                assert(ch[p as int][i] == c);
            }
            if ch[p as int].contains(c) {
                let i = choose|i: int| 0 <= i < ch[p as int].len() && ch[p as int][i] == c;
                assert(ch2[p as int][i] == c);
            }
            if c == n {
                assert(ch2[p as int][ch[p as int].len() as int] == n);
            }
        } else if p < ch.len() {
            assert(ch2[p as int] == ch[p as int]);
        } else if p == n {
            assert(ch2[p as int] == Seq::<usize>::empty());
        }
    }
    assert forall|p: usize, i: int|
        p < ch2.len() && 0 <= i < ch2[p as int].len() implies p < #[trigger] ch2[p as int][i]
        < ch2.len() by {
        if p == parent && i == ch[p as int].len() {
        } else if p < ch.len() {
            assert(ch2[p as int][i] == ch[p as int][i]);
        }
    }
    assert forall|p: usize| p < ch2.len() implies (#[trigger] ch2[p as int]).no_duplicates() by {
        if p == parent {
            assert forall|i: int| 0 <= i < ch[p as int].len() implies ch2[p as int][i] != n by {
                assert(ch[p as int][i] < n);
            }
        }
    }
    assert forall|p: usize, q: usize, c: usize|
        #[trigger] is_child(ch2, p, c) && #[trigger] is_child(ch2, q, c) implies p == q by {
        if c == n {
            if is_child(ch, p, c) {
                let i = choose|i: int| 0 <= i < ch[p as int].len() && ch[p as int][i] == c;
                assert(ch[p as int][i] < n);
            }
            if is_child(ch, q, c) {
                let i = choose|i: int| 0 <= i < ch[q as int].len() && ch[q as int][i] == c;
                assert(ch[q as int][i] < n);
            }
        }
    }
}

/// The items of each of a sequence of vectors.
pub open spec fn chunk_views(chunks: Seq<Vec<usize>>) -> Seq<Seq<usize>> {
    chunks.map_values(|c: Vec<usize>| c@)
}

/// Chunks that, one after the other, form a sequence without repeats are
/// pairwise disjoint, and together hold exactly the elements of that
/// sequence.
pub proof fn lemma_chunks_partition<A>(chunks: Seq<Seq<A>>, s: Seq<A>)
    requires
        flatten(chunks) == s,
        s.no_duplicates(),
    ensures
        forall|i: int, j: int, x: A|
            0 <= i < chunks.len() && 0 <= j < chunks.len() && i != j && #[trigger] chunks[i].contains(
                x,
            ) ==> !#[trigger] chunks[j].contains(x),
        forall|x: A|
            s.contains(x) <==> exists|i: int| 0 <= i < chunks.len() && #[trigger] chunks[i].contains(x),
    decreases chunks.len(),
{
    if chunks.len() > 0 {
        let init = chunks.drop_last();
        let last = chunks.last();
        let f = flatten(init);
        assert(s == f + last);
        assert forall|a: int, b: int| 0 <= a < f.len() && 0 <= b < f.len() && a != b implies f[a]
            != f[b] by {
            assert(s[a] == f[a] && s[b] == f[b]);
        }
        lemma_chunks_partition(init, f);
        assert forall|i: int| 0 <= i < init.len() implies #[trigger] chunks[i] == init[i] by {}
        assert forall|x: A| f.contains(x) && last.contains(x) implies false by {
            let a = choose|a: int| 0 <= a < f.len() && f[a] == x;
            let b = choose|b: int| 0 <= b < last.len() && last[b] == x;
            assert(s[a] == x && s[f.len() + b] == x);
        }
        assert forall|i: int, j: int, x: A|
            0 <= i < chunks.len() && 0 <= j < chunks.len() && i != j && #[trigger] chunks[i].contains(
                x,
            ) implies !#[trigger] chunks[j].contains(x) by {
            if i < init.len() && j < init.len() {
                assert(init[i].contains(x));
            } else if i < init.len() {
                assert(init[i].contains(x));
                assert(f.contains(x));
            } else if j < init.len() {
                if chunks[j].contains(x) {
                    assert(init[j].contains(x));
                    assert(f.contains(x));
                }
            }
        }
        assert forall|x: A| s.contains(x) <==> exists|i: int|
            0 <= i < chunks.len() && #[trigger] chunks[i].contains(x) by {
            if s.contains(x) {
                let k = choose|k: int| 0 <= k < s.len() && s[k] == x;
                if k < f.len() {
                    assert(f[k] == x);
                    assert(f.contains(x));
                    let i = choose|i: int| 0 <= i < init.len() && #[trigger] init[i].contains(x);
                    assert(chunks[i] == init[i]);
                    assert(chunks[i].contains(x));
                } else {
                    assert(last[k - f.len()] == x);
                    assert(chunks[chunks.len() - 1].contains(x));
                }
            }
            if exists|i: int| 0 <= i < chunks.len() && #[trigger] chunks[i].contains(x) {
                let i = choose|i: int| 0 <= i < chunks.len() && #[trigger] chunks[i].contains(x);
                if i < init.len() {
                    assert(init[i].contains(x));
                    assert(f.contains(x));
                    let k = choose|k: int| 0 <= k < f.len() && f[k] == x;
                    assert(s[k] == x);
                } else {
                    let k = choose|k: int| 0 <= k < last.len() && last[k] == x;
                    assert(s[f.len() + k] == x);
                }
            }
        }
    }
}

/// The forest of one pack: a node per entry, with the indices of its
/// children (the deltas whose base it is) and a payload slot.
pub struct Tree<T> {
    entries: Vec<EntrySlice>,
    data: Vec<Option<T>>,
    children: Vec<Vec<usize>>,
    roots: Vec<usize>,
}

impl<T> Tree<T> {
    /// The children of each node.
    pub closed spec fn child_lists(&self) -> Seq<Seq<usize>> {
        self.children@.map_values(|c: Vec<usize>| c@)
    }

    /// The root nodes, in the order they were added.
    pub closed spec fn root_list(&self) -> Seq<usize> {
        self.roots@
    }

    /// Where each node's entry lies in the pack.
    pub closed spec fn entry_list(&self) -> Seq<EntrySlice> {
        self.entries@
    }

    /// The payload of each node.
    pub closed spec fn payloads(&self) -> Seq<T> {
        self.data@.map_values(|d: Option<T>| d->Some_0)
    }

    pub open spec fn len(&self) -> nat {
        self.entry_list().len()
    }

    pub closed spec fn wf(&self) -> bool {
        let n = self.entries@.len();
        let ch = self.child_lists();
        &&& self.data@.len() == n
        &&& self.children@.len() == n
        &&& forall|i: int| 0 <= i < n ==> (#[trigger] self.data@[i]) is Some
        &&& forest(ch)
        &&& self.roots@.no_duplicates()
        &&& forall|k: int|
            0 <= k < self.roots@.len() ==> #[trigger] self.roots@[k] < n && is_root(
                ch,
                self.roots@[k],
            )
        &&& forall|x: usize| x < n && is_root(ch, x) ==> #[trigger] self.roots@.contains(x)
    }

    /// A tree without nodes.
    pub fn new() -> (r: Self)
        ensures
            r.wf(),
            r.len() == 0,
            r.root_list() == Seq::<usize>::empty(),
    {
        let r = Tree { entries: Vec::new(), data: Vec::new(), children: Vec::new(), roots: Vec::new() };
        assert(r.child_lists() =~= Seq::<Seq<usize>>::empty());
        r
    }

    /// The number of nodes.
    pub fn num_items(&self) -> (r: usize)
        ensures
            r == self.len(),
    {
        self.entries.len()
    }

    /// Adds a base object whose entry spans `[offset, next_offset)`; returns its index.
    pub fn add_root(&mut self, offset: u64, next_offset: u64, data: T) -> (r: usize)
        requires
            old(self).wf(),
            old(self).len() < usize::MAX,
        ensures
            final(self).wf(),
            r == old(self).len(),
            final(self).entry_list() == old(self).entry_list().push(
                EntrySlice { start: offset, end: next_offset },
            ),
            final(self).child_lists() == old(self).child_lists().push(Seq::empty()),
            final(self).root_list() == old(self).root_list().push(r),
            final(self).payloads() == old(self).payloads().push(data),
    {
        let n = self.entries.len();
        let ghost ch = self.child_lists();
        self.entries.push(EntrySlice { start: offset, end: next_offset });
        self.data.push(Some(data));
        self.children.push(Vec::new());
        self.roots.push(n);
        proof {
            let ch2 = self.child_lists();
            assert(ch2 =~= ch.push(Seq::empty()));
            assert(self.payloads() =~= old(self).payloads().push(data));
            assert forall|p: usize, c: usize| #[trigger]
                is_child(ch2, p, c) <==> is_child(ch, p, c) by {
                if p < n {
                    assert(ch2[p as int] == ch[p as int]);
                }
                if p == n {
                    assert(ch2[p as int] == Seq::<usize>::empty());
                }
            }
            assert forall|p: usize, i: int|
                p < ch2.len() && 0 <= i < ch2[p as int].len() implies p < #[trigger] ch2[p as int][i]
                < ch2.len() by {
                assert(ch2[p as int][i] == ch[p as int][i]);
            }
            assert forall|p: usize| p < ch2.len() implies (#[trigger] ch2[p as int]).no_duplicates() by {
                if p < n {
                    assert(ch2[p as int] == ch[p as int]);
                }
            }
            let m = old(self).roots@.len() as int;
            assert forall|k: int| 0 <= k < self.roots@.len() implies #[trigger] self.roots@[k] < n + 1
                && is_root(ch2, self.roots@[k]) by {
                if k < m {
                    assert(old(self).roots@[k] == self.roots@[k]);
                }
            }
            assert forall|x: usize| x < n + 1 && is_root(ch2, x) implies #[trigger] self.roots@.contains(x) by {
                if x < n {
                    assert forall|p: usize| !#[trigger] is_child(ch, p, x) by {
                        assert(!is_child(ch2, p, x));
                    }
                    assert(old(self).roots@.contains(x));
                    let k = choose|k: int| 0 <= k < m && old(self).roots@[k] == x;
                    assert(self.roots@[k] == x);
                } else {
                    assert(self.roots@[m] == x);
                }
            }
            assert forall|i: int, j: int| 0 <= i < self.roots@.len() && 0 <= j < self.roots@.len() && i != j
                implies self.roots@[i] != self.roots@[j] by {
                if i < m && j < m {
                    assert(old(self).roots@[i] != old(self).roots@[j]);
                } else if i < m {
                    assert(old(self).roots@[i] < n);
                } else if j < m {
                    assert(old(self).roots@[j] < n);
                }
            }
        }
        n
    }

    /// Adds a delta whose base is node `parent` and whose entry spans
    /// `[offset, next_offset)`; returns its index.
    pub fn add_child(&mut self, parent: usize, offset: u64, next_offset: u64, data: T) -> (r: usize)
        requires
            old(self).wf(),
            parent < old(self).len(),
            old(self).len() < usize::MAX,
        ensures
            final(self).wf(),
            r == old(self).len(),
            final(self).entry_list() == old(self).entry_list().push(
                EntrySlice { start: offset, end: next_offset },
            ),
            final(self).child_lists() == with_child(old(self).child_lists(), parent, r),
            final(self).root_list() == old(self).root_list(),
            final(self).payloads() == old(self).payloads().push(data),
    {
        let n = self.entries.len();
        let ghost ch = self.child_lists();
        let mut c: Vec<usize> = Vec::new();
        self.children.set_and_swap(parent, &mut c);
        c.push(n);
        self.children.set_and_swap(parent, &mut c);
        self.children.push(Vec::new());
        self.entries.push(EntrySlice { start: offset, end: next_offset });
        self.data.push(Some(data));
        proof {
            let ch2 = self.child_lists();
            assert(ch2 =~= with_child(ch, parent, n));
            assert(self.payloads() =~= old(self).payloads().push(data));
            lemma_with_child(ch, parent);
            assert forall|k: int| 0 <= k < self.roots@.len() implies #[trigger] self.roots@[k] < n + 1
                && is_root(ch2, self.roots@[k]) by {
                let x = self.roots@[k];
                assert(is_root(ch, x));
                assert forall|p: usize| !#[trigger] is_child(ch2, p, x) by {
                    assert(!is_child(ch, p, x));
                }
            }
            assert forall|x: usize| x < n + 1 && is_root(ch2, x) implies #[trigger] self.roots@.contains(x) by {
                assert(!is_root(ch2, n)) by {
                    assert(is_child(ch2, parent, n));
                }
                assert forall|p: usize| !#[trigger] is_child(ch, p, x) by {
                    assert(!is_child(ch2, p, x));
                }
            }
        }
        n
    }

    /// The roots, in order, split into chunks of `chunk_size` (the last one
    /// may be shorter). Chunks never share a root, and so never share a node.
    pub fn root_chunks(&self, chunk_size: usize) -> (r: Vec<Vec<usize>>)
        requires
            self.wf(),
            chunk_size > 0,
        ensures
            flatten(chunk_views(r@)) == self.root_list(),
            well_chunked(chunk_views(r@), chunk_size as nat),
    {
        let mut chunker: Chunker<usize> = Chunker::new(chunk_size);
        let mut out: Vec<Vec<usize>> = Vec::new();
        let mut i: usize = 0;
        while i < self.roots.len()
            invariant
                chunker.wf(),
                chunker.size() == chunk_size,
                i <= self.roots@.len(),
                chunker.pushed() == self.roots@.subrange(0, i as int),
                chunker.emitted() == chunk_views(out@),
            decreases self.roots@.len() - i,
        {
            let ghost before = out@;
            let ghost emitted_before = chunker.emitted();
            let root = self.roots[i];
            let full = chunker.push(root);
            match full {
                Some(c) => {
                    assert(chunker.emitted() == emitted_before.push(c@));
                    out.push(c);
                    assert(chunk_views(out@) =~= chunk_views(before).push(c@));
                },
                None => {
                    assert(chunker.emitted() == emitted_before);
                },
            }
            i += 1;
            assert(self.roots@.subrange(0, i as int) =~= self.roots@.subrange(0, i - 1).push(root));
        }
        assert(self.roots@.subrange(0, i as int) =~= self.roots@);
        let ghost before = out@;
        let last = chunker.finish();
        match last {
            Some(c) => {
                out.push(c);
                assert(chunk_views(out@) =~= chunk_views(before).push(c@));
            },
            None => {},
        }
        out
    }

    /// The child lists and payloads of a well-formed tree have one entry per node.
    pub proof fn lemma_wf_len(&self)
        requires
            self.wf(),
        ensures
            self.child_lists().len() == self.len(),
            self.payloads().len() == self.len(),
    {
    }

    /// The tree's roots are roots of its forest, each listed once.
    pub proof fn lemma_roots_ok(&self)
        requires
            self.wf(),
        ensures
            forest(self.child_lists()),
            roots_ok(self.child_lists(), self.root_list()),
            forall|x: usize| x < self.len() && is_root(self.child_lists(), x) ==> self.root_list().contains(x),
    {
    }

    /// Where the entry of node `i` lies.
    pub fn entry(&self, i: usize) -> (r: EntrySlice)
        requires
            self.wf(),
            i < self.len(),
        ensures
            r == self.entry_list()[i as int],
    {
        self.entries[i]
    }

    /// Puts `data` in the payload slot of node `i`, and returns what was there.
    pub fn swap_payload(&mut self, i: usize, data: T) -> (r: T)
        requires
            old(self).wf(),
            i < old(self).len(),
        ensures
            final(self).wf(),
            r == old(self).payloads()[i as int],
            final(self).payloads() == old(self).payloads().update(i as int, data),
            final(self).entry_list() == old(self).entry_list(),
            final(self).child_lists() == old(self).child_lists(),
            final(self).root_list() == old(self).root_list(),
    {
        let mut slot = Some(data);
        self.data.set_and_swap(i, &mut slot);
        proof {
            assert(self.payloads() =~= old(self).payloads().update(i as int, data));
            assert(self.child_lists() =~= old(self).child_lists());
            assert forall|k: int| 0 <= k < self.data@.len() implies (#[trigger] self.data@[k]) is Some by {
                if k != i {
                    assert(self.data@[k] == old(self).data@[k]);
                }
            }
        }
        slot.unwrap()
    }

    /// The nodes in index order, each with its entry's bounds and its payload.
    pub fn into_items(self) -> (r: Vec<Item<T>>)
        requires
            self.wf(),
        ensures
            r@.len() == self.len(),
            forall|i: int|
                0 <= i < r@.len() ==> {
                    &&& (#[trigger] r@[i]).offset == self.entry_list()[i].start
                    &&& r@[i].next_offset == self.entry_list()[i].end
                    &&& r@[i].data == self.payloads()[i]
                },
    {
        let ghost payloads = self.payloads();
        let Tree { entries, mut data, children: _, roots: _ } = self;
        let mut out: Vec<Item<T>> = Vec::new();
        let mut i: usize = 0;
        while i < entries.len()
            invariant
                i <= entries@.len(),
                entries@ == self.entries@,
                data@.len() == entries@.len(),
                out@.len() == i,
                forall|k: int| i <= k < data@.len() ==> (#[trigger] data@[k]) is Some && data@[k]->Some_0 == payloads[k],
                forall|k: int|
                    0 <= k < i ==> {
                        &&& (#[trigger] out@[k]).offset == entries@[k].start
                        &&& out@[k].next_offset == entries@[k].end
                        &&& out@[k].data == payloads[k]
                    },
            decreases entries@.len() - i,
        {
            let mut slot: Option<T> = None;
            data.set_and_swap(i, &mut slot);
            let e = entries[i];
            out.push(Item { offset: e.start, next_offset: e.end, data: slot.unwrap() });
            i += 1;
        }
        out
    }

    /// Roots handed out in chunks of the tree's roots lie in exactly one chunk
    /// each, and the chunks hold nothing else.
    pub proof fn lemma_root_chunks_partition(&self, chunks: Seq<Seq<usize>>)
        requires
            self.wf(),
            flatten(chunks) == self.root_list(),
        ensures
            forall|i: int, j: int, x: usize|
                0 <= i < chunks.len() && 0 <= j < chunks.len() && i != j
                    && #[trigger] chunks[i].contains(x) ==> !#[trigger] chunks[j].contains(x),
            forall|x: usize|
                self.root_list().contains(x) <==> exists|i: int|
                    0 <= i < chunks.len() && #[trigger] chunks[i].contains(x),
    {
        lemma_chunks_partition(chunks, self.roots@);
    }

    /// The order in which a depth-first walk from `roots` visits nodes, each
    /// with its distance from the root it was reached from. Every node
    /// reachable from `roots` comes once, and after its parent.
    pub fn visit_order(&self, roots: &[usize]) -> (r: Vec<(usize, u16)>)
        requires
            self.wf(),
            roots_ok(self.child_lists(), roots@),
        ensures
            visits_subtrees(self.child_lists(), roots@, nodes(r@)),
            levels_ok(self.child_lists(), roots@, r@, r@),
            (forall|x: usize| x < self.len() && is_root(self.child_lists(), x) ==> roots@.contains(x))
                ==> (forall|x: usize| x < self.len() ==> nodes(r@).contains(x)),
    {
        let ghost ch = self.child_lists();
        let ghost rs = roots@;
        let ghost n = self.entries@.len() as int;
        let mut stack: Vec<(usize, u16)> = Vec::new();
        let mut k: usize = roots.len();
        while k > 0
            invariant
                k <= rs.len(),
                rs == roots@,
                nodes(stack@).len() == rs.len() - k,
                forall|t: int| 0 <= t < nodes(stack@).len() ==> #[trigger] nodes(stack@)[t] == rs[rs.len() - 1 - t],
                forall|t: int| 0 <= t < stack@.len() ==> (#[trigger] stack@[t]).1 == 0,
            decreases k,
        {
            let ghost before = stack@;
            k -= 1;
            stack.push((roots[k], 0));
            assert(nodes(stack@) =~= nodes(before).push(roots@[k as int]));
        }
        let mut order: Vec<(usize, u16)> = Vec::new();
        proof {
            let sn = nodes(stack@);
            assert forall|a: int, b: int| 0 <= a < sn.len() && 0 <= b < sn.len() && a != b implies sn[a] != sn[b] by {
                assert(rs[rs.len() - 1 - a] != rs[rs.len() - 1 - b]);
            }
            assert forall|x: usize| rs.contains(x) implies sn.contains(x) by {
                let t = choose|t: int| 0 <= t < rs.len() && rs[t] == x;
                assert(sn[rs.len() - 1 - t] == x);
            }
            assert forall|t: int| 0 <= t < sn.len() implies rs.contains(#[trigger] sn[t]) && sn[t] < n by {
                assert(sn[t] == rs[rs.len() - 1 - t]);
            }
            assert(nodes(order@) =~= Seq::<usize>::empty());
        }
        while stack.len() > 0
            invariant
                self.wf(),
                ch == self.child_lists(),
                n == self.len(),
                forest(ch),
                roots_ok(ch, rs),
                walk_inv(ch, rs, nodes(order@), nodes(stack@)),
                levels_ok(ch, rs, order@, order@),
                levels_ok(ch, rs, order@, stack@),
            decreases n - order@.len(),
        {
            let ghost on = nodes(order@);
            let ghost sn = nodes(stack@);
            proof {
                lemma_walk_bounded(ch, rs, on, sn);
            }
            let ghost st = stack@;
            let ghost od = order@;
            let (x, level) = stack.pop().unwrap();
            assert(nodes(stack@) =~= sn.drop_last());
            assert(x == sn[sn.len() - 1]);
            assert(x < ch.len());
            order.push((x, level));
            let cs = &self.children[x];
            let ghost cl = cs@;
            assert(cl == ch[x as int]);
            let next: u16 = if level < u16::MAX {
                level + 1
            } else {
                level
            };
            let mut j: usize = cs.len();
            while j > 0
                invariant
                    j <= cl.len(),
                    cl == cs@,
                    sn.len() > 0,
                    st.len() == sn.len(),
                    stack@.len() == nodes(stack@).len(),
                    forall|t: int| 0 <= t < st.len() - 1 ==> #[trigger] stack@[t] == st[t],
                    forall|t: int|
                        0 <= t < cl.len() - j ==> #[trigger] stack@[st.len() - 1 + t] == (cl[cl.len() - 1 - t], next),
                    nodes(stack@).len() == sn.len() - 1 + (cl.len() - j),
                    forall|t: int| 0 <= t < sn.len() - 1 ==> #[trigger] nodes(stack@)[t] == sn[t],
                    forall|t: int|
                        0 <= t < cl.len() - j ==> #[trigger] nodes(stack@)[sn.len() - 1 + t] == cl[cl.len() - 1 - t],
                decreases j,
            {
                let ghost before = stack@;
                j -= 1;
                stack.push((cs[j], next));
                assert(nodes(stack@) =~= nodes(before).push(cl[j as int]));
            }
            proof {
                assert(nodes(order@) =~= on.push(x));
                lemma_walk_step(ch, rs, on, sn, nodes(stack@));
                assert(st.last() == (x, level));
                assert(nodes(od) == on && nodes(st) == sn);
                assert(sn.last() == x);
                assert forall|t: int| st.len() - 1 <= t < stack@.len() implies #[trigger] is_child(ch, st.last().0, stack@[t].0)
                    && stack@[t].1 == next_level(st.last().1) by {
                    let u = t - (st.len() - 1);
                    assert(stack@[st.len() - 1 + u] == (cl[cl.len() - 1 - u], next));
                    assert(ch[x as int][cl.len() - 1 - u] == stack@[t].0);
                }
                assert(order@ == od.push(st.last()));
                lemma_levels_step(ch, rs, od, st, stack@);
            }
        }
        proof {
            let on = nodes(order@);
            lemma_walk_done(ch, rs, on, nodes(stack@));
            if forall|x: usize| x < n && is_root(ch, x) ==> rs.contains(x) {
                lemma_closed_holds_all(ch, on);
            }
        }
        order
    }
}

} // verus!
