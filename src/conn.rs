//! Paths and 4-connectivity over sets of pixel positions.

use vstd::prelude::*;

verus! {

/// Two pixel positions `(x, y)` that share an edge.
pub open spec fn adjacent(a: (int, int), b: (int, int)) -> bool {
    (a.0 == b.0 && (a.1 - b.1 == 1 || b.1 - a.1 == 1)) || (a.1 == b.1 && (a.0 - b.0 == 1 || b.0
        - a.0 == 1))
}

/// A non-empty walk through `s` whose consecutive positions share an edge.
pub open spec fn is_path(s: Set<(int, int)>, p: Seq<(int, int)>) -> bool {
    &&& p.len() > 0
    &&& forall|k: int| 0 <= k < p.len() ==> s.contains(#[trigger] p[k])
    &&& forall|k: int| 0 <= k < p.len() - 1 ==> #[trigger] adjacent(p[k], p[k + 1])
}

/// `a` and `b` lie in one 4-connected component of `s`.
pub open spec fn connected(s: Set<(int, int)>, a: (int, int), b: (int, int)) -> bool {
    exists|p: Seq<(int, int)>| is_path(s, p) && p[0] == a && p.last() == b
}

pub proof fn lemma_connected_ends(s: Set<(int, int)>, a: (int, int), b: (int, int))
    requires
        connected(s, a, b),
    ensures
        s.contains(a),
        s.contains(b),
{
    let p = choose|p: Seq<(int, int)>| is_path(s, p) && p[0] == a && p.last() == b;
    assert(s.contains(p[0]));
    assert(s.contains(p[p.len() - 1]));
}

pub proof fn lemma_connected_refl(s: Set<(int, int)>, a: (int, int))
    requires
        s.contains(a),
    ensures
        connected(s, a, a),
{
    let p = seq![a];
    assert(is_path(s, p));
    assert(p[0] == a && p.last() == a);
}

pub proof fn lemma_connected_step(s: Set<(int, int)>, a: (int, int), b: (int, int), c: (int, int))
    requires
        connected(s, a, b),
        adjacent(b, c),
        s.contains(c),
    ensures
        connected(s, a, c),
{
    let p = choose|p: Seq<(int, int)>| is_path(s, p) && p[0] == a && p.last() == b;
    let q = p.push(c);
    assert forall|k: int| 0 <= k < q.len() implies s.contains(#[trigger] q[k]) by {
        if k < p.len() {
            assert(q[k] == p[k]);
        }
    }
    assert forall|k: int| 0 <= k < q.len() - 1 implies #[trigger] adjacent(q[k], q[k + 1]) by {
        if k < p.len() - 1 {
            assert(q[k] == p[k] && q[k + 1] == p[k + 1]);
            assert(adjacent(p[k], p[k + 1]));
        }
    }
    assert(is_path(s, q));
    assert(q[0] == a && q.last() == c);
}

pub proof fn lemma_connected_sym(s: Set<(int, int)>, a: (int, int), b: (int, int))
    requires
        connected(s, a, b),
    ensures
        connected(s, b, a),
{
    let p = choose|p: Seq<(int, int)>| is_path(s, p) && p[0] == a && p.last() == b;
    let n = p.len();
    let q = Seq::new(n, |k: int| p[n - 1 - k]);
    assert forall|k: int| 0 <= k < q.len() implies s.contains(#[trigger] q[k]) by {
        assert(s.contains(p[n - 1 - k]));
    }
    assert forall|k: int| 0 <= k < q.len() - 1 implies #[trigger] adjacent(q[k], q[k + 1]) by {
        assert(adjacent(p[n - 2 - k], p[n - 2 - k + 1]));
    }
    assert(is_path(s, q));
    assert(q[0] == b && q.last() == a);
}

pub proof fn lemma_connected_trans(s: Set<(int, int)>, a: (int, int), b: (int, int), c: (int, int))
    requires
        connected(s, a, b),
        connected(s, b, c),
    ensures
        connected(s, a, c),
{
    let p = choose|p: Seq<(int, int)>| is_path(s, p) && p[0] == a && p.last() == b;
    let r = choose|r: Seq<(int, int)>| is_path(s, r) && r[0] == b && r.last() == c;
    let h = p.take(p.len() - 1);
    let q = h + r;
    assert forall|k: int| 0 <= k < q.len() implies s.contains(#[trigger] q[k]) by {
        if k < h.len() {
            assert(q[k] == p[k]);
        } else {
            assert(q[k] == r[k - h.len()]);
        }
    }
    assert forall|k: int| 0 <= k < q.len() - 1 implies #[trigger] adjacent(q[k], q[k + 1]) by {
        if k + 1 < h.len() {
            assert(q[k] == p[k] && q[k + 1] == p[k + 1]);
            assert(adjacent(p[k], p[k + 1]));
        } else if k + 1 == h.len() {
            assert(q[k] == p[k] && q[k + 1] == r[0]);
            assert(adjacent(p[k], p[k + 1]));
        } else {
            assert(q[k] == r[k - h.len()] && q[k + 1] == r[k - h.len() + 1]);
            assert(adjacent(r[k - h.len()], r[k - h.len() + 1]));
        }
    }
    assert(is_path(s, q));
    if h.len() == 0 {
        assert(q[0] == r[0]);
    } else {
        assert(q[0] == p[0]);
    }
    assert(q.last() == r.last());
}

pub proof fn lemma_connected_mono(s: Set<(int, int)>, t: Set<(int, int)>, a: (int, int), b: (int, int))
    requires
        connected(s, a, b),
        s.subset_of(t),
    ensures
        connected(t, a, b),
{
    let p = choose|p: Seq<(int, int)>| is_path(s, p) && p[0] == a && p.last() == b;
    assert forall|k: int| 0 <= k < p.len() implies t.contains(#[trigger] p[k]) by {
        assert(s.contains(p[k]));
    }
    assert(is_path(t, p));
}

/// A property that holds at `a` and passes along every edge of `s` holds on
/// the whole component of `a`.
pub proof fn lemma_connected_closed(
    s: Set<(int, int)>,
    prop: spec_fn((int, int)) -> bool,
    a: (int, int),
    b: (int, int),
)
    requires
        connected(s, a, b),
        prop(a),
        forall|x: (int, int), y: (int, int)|
            s.contains(x) && s.contains(y) && adjacent(x, y) && #[trigger] prop(x) ==> #[trigger] prop(
                y,
            ),
    ensures
        prop(b),
{
    let p = choose|p: Seq<(int, int)>| is_path(s, p) && p[0] == a && p.last() == b;
    lemma_path_closed(s, prop, p, p.len() - 1);
}

proof fn lemma_path_closed(s: Set<(int, int)>, prop: spec_fn((int, int)) -> bool, p: Seq<(int, int)>, k: int)
    requires
        is_path(s, p),
        0 <= k < p.len(),
        prop(p[0]),
        forall|x: (int, int), y: (int, int)|
            s.contains(x) && s.contains(y) && adjacent(x, y) && #[trigger] prop(x) ==> #[trigger] prop(
                y,
            ),
    ensures
        prop(p[k]),
    decreases k,
{
    if k > 0 {
        lemma_path_closed(s, prop, p, k - 1);
        assert(adjacent(p[k - 1], p[k - 1 + 1]));
        assert(s.contains(p[k - 1]) && s.contains(p[k]));
    }
}

/// `t` is `s` moved by `(dx, dy)`.
pub open spec fn shifted(s: Set<(int, int)>, t: Set<(int, int)>, dx: int, dy: int) -> bool {
    forall|c: (int, int)| #[trigger] t.contains(c) == s.contains((c.0 - dx, c.1 - dy))
}

/// Connectivity moves along with the set.
pub proof fn lemma_connected_shift(s: Set<(int, int)>, t: Set<(int, int)>, dx: int, dy: int, a: (int, int), b: (int, int))
    requires
        shifted(s, t, dx, dy),
        connected(s, a, b),
    ensures
        connected(t, (a.0 + dx, a.1 + dy), (b.0 + dx, b.1 + dy)),
{
    let p = choose|p: Seq<(int, int)>| is_path(s, p) && p[0] == a && p.last() == b;
    let q = p.map_values(|c: (int, int)| (c.0 + dx, c.1 + dy));
    assert forall|k: int| 0 <= k < q.len() implies t.contains(#[trigger] q[k]) by {
        assert(s.contains(p[k]));
        assert(t.contains(q[k]) == s.contains((q[k].0 - dx, q[k].1 - dy)));
    }
    assert forall|k: int| 0 <= k < q.len() - 1 implies #[trigger] adjacent(q[k], q[k + 1]) by {
        assert(adjacent(p[k], p[k + 1]));
    }
    assert(is_path(t, q));
    assert(q[0] == (a.0 + dx, a.1 + dy));
    assert(q.last() == (b.0 + dx, b.1 + dy));
}

/// Two positions that touch only at a corner are not connected within the
/// set holding just the two of them.
pub proof fn lemma_diagonal_pair_apart(p: (int, int), q: (int, int))
    requires
        p.0 - q.0 == 1 || q.0 - p.0 == 1,
        p.1 - q.1 == 1 || q.1 - p.1 == 1,
    ensures
        !connected(set![p, q], p, q),
{
    let s = set![p, q];
    if connected(s, p, q) {
        let prop = |c: (int, int)| c == p;
        assert forall|x: (int, int), y: (int, int)|
            s.contains(x) && s.contains(y) && adjacent(x, y) && #[trigger] prop(x) implies #[trigger] prop(y) by {
            assert(y == p || y == q);
        }
        lemma_connected_closed(s, prop, p, q);
    }
}

} // verus!
