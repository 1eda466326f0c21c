use vstd::prelude::*;
use crate::node::AbstractNode;
use crate::tree::NodeArena;

verus! {

/// `kp` with the nodes `ks` put in, in order, at place `pos`.
pub open spec fn spliced(kp: Seq<int>, pos: int, ks: Seq<int>) -> Seq<int> {
    kp.subrange(0, pos) + ks + kp.subrange(pos, kp.len() as int)
}

/// The ancestors of `x` once the children of the root `n` have gone under `p`.
pub open spec fn anc_after_move<View>(a: &NodeArena<View>, n: int, p: int, x: int) -> Set<int> {
    if a.anc(x).contains(n) {
        a.anc(x).remove(n).union(a.anc(p).insert(p))
    } else {
        a.anc(x)
    }
}

/// `new` is `old` once the children of the root `n` have been taken from it and put,
/// in order, among the children of `p`, just before `child` or at the end.
pub open spec fn is_kids_move<View>(
    new: &NodeArena<View>,
    old: &NodeArena<View>,
    n: int,
    p: int,
    child: Option<AbstractNode<View>>,
) -> bool {
    &&& new.wf()
    &&& new.len() == old.len()
    &&& new.kids(p) == spliced(old.kids(p), old.insert_pos(p, child), old.kids(n))
    &&& new.kids(n) == Seq::<int>::empty()
    &&& forall|y: int| #![trigger new.kids(y)]
        old.valid(y) && y != p && y != n ==> new.kids(y) == old.kids(y)
    &&& forall|x: int| #![trigger new.parent(x)]
        old.valid(x) ==> new.parent(x) == if old.parent(x) == Some(n) { Some(p) } else { old.parent(x) }
    &&& forall|x: int| #![trigger new.anc(x)]
        old.valid(x) ==> new.anc(x) == anc_after_move(old, n, p, x)
    &&& forall|x: int| #![trigger new.node_at(x)]
        old.valid(x) ==> new.node_at(x).same_data(old.node_at(x))
}

/// The children of the root `n` may go under `p`, before `child` if given.
pub open spec fn can_move_kids<View>(
    o: &NodeArena<View>,
    n: int,
    p: int,
    child: Option<AbstractNode<View>>,
) -> bool {
    &&& o.wf()
    &&& o.valid(n)
    &&& o.valid(p)
    &&& o.parent(n) is None
    &&& !o.in_subtree(n, p)
    &&& child matches Some(c) ==> o.valid(c.obj as int) && o.parent(c.obj as int) == Some(p)
}

/// The state once the first `j` children of the root `n` of `o` have gone under `p`.
pub open spec fn moved_upto<View>(
    cur: &NodeArena<View>,
    o: &NodeArena<View>,
    n: int,
    p: int,
    child: Option<AbstractNode<View>>,
    j: int,
) -> bool {
    let ks = o.kids(n);
    &&& cur.wf()
    &&& cur.len() == o.len()
    &&& cur.kids(n) == ks.subrange(j, ks.len() as int)
    &&& cur.kids(p) == spliced(o.kids(p), o.insert_pos(p, child), ks.subrange(0, j))
    &&& forall|y: int| #![trigger cur.kids(y)]
        o.valid(y) && y != p && y != n ==> cur.kids(y) == o.kids(y)
    &&& forall|x: int| #![trigger cur.parent(x)]
        o.valid(x) ==> cur.parent(x) == if exists|m: int| 0 <= m < j && ks[m] == x { Some(p) } else { o.parent(x) }
    &&& forall|x: int| #![trigger cur.anc(x)]
        o.valid(x) ==> cur.anc(x) == if exists|m: int| 0 <= m < j && #[trigger] o.in_subtree(ks[m], x) {
            o.anc(x).remove(n).union(o.anc(p).insert(p))
        } else {
            o.anc(x)
        }
    &&& forall|x: int| #![trigger cur.node_at(x)]
        o.valid(x) ==> cur.node_at(x).same_data(o.node_at(x))
}

/// A node in the subtree of a child of `n` lies below `n`.
pub proof fn lemma_below_kid<View>(o: &NodeArena<View>, n: int, m: int, x: int)
    requires
        o.wf(),
        o.valid(n),
        o.valid(x),
        0 <= m < o.kids(n).len(),
        o.in_subtree(o.kids(n)[m], x),
    ensures
        o.anc(x).contains(n),
{
    let c = o.kids(n)[m];
    assert(o.node_wf(n));
    assert(o.kid_wf(n, m));
    assert(o.node_wf(c));
    if c != x {
        o.lemma_anc_trans(c, x);
    }
}

/// Nothing has moved yet.
pub proof fn lemma_move_start<View>(o: &NodeArena<View>, n: int, p: int, child: Option<AbstractNode<View>>)
    requires
        can_move_kids(o, n, p, child),
    ensures
        moved_upto(o, o, n, p, child, 0),
{
    let ks = o.kids(n);
    let kp = o.kids(p);
    assert(ks.subrange(0, ks.len() as int) =~= ks);
    if let Some(c) = child {
        assert(o.node_wf(c.obj as int));
        assert(kp.contains(c.obj as int));
    }
    assert(spliced(kp, o.insert_pos(p, child), ks.subrange(0, 0)) =~= kp);
}

/// Before the `j`-th child of `n` moves: what the calls that move it need, and how the
/// state so far bears on it.
pub proof fn lemma_move_ready<View>(
    cur: &NodeArena<View>,
    o: &NodeArena<View>,
    n: int,
    p: int,
    child: Option<AbstractNode<View>>,
    j: int,
)
    requires
        can_move_kids(o, n, p, child),
        0 <= j < o.kids(n).len(),
        moved_upto(cur, o, n, p, child, j),
    ensures
        o.valid(o.kids(n)[j]),
        cur.parent(o.kids(n)[j]) == Some(n),
        o.kids(n)[j] != n,
        o.kids(n)[j] != p,
        o.anc(o.kids(n)[j]) == o.anc(n).insert(n),
        o.anc(n) == Set::<int>::empty(),
        cur.anc(o.kids(n)[j]) == o.anc(o.kids(n)[j]),
        forall|x: int| #![trigger cur.in_subtree(o.kids(n)[j], x)]
            o.valid(x) ==> cur.in_subtree(o.kids(n)[j], x) == o.in_subtree(o.kids(n)[j], x),
        cur.anc(p) == o.anc(p),
        !o.in_subtree(o.kids(n)[j], p),
        cur.node_at(o.kids(n)[j]).owner_doc is Some,
        child matches Some(c) ==> cur.parent(c.obj as int) == Some(p) && c.obj != o.kids(n)[j],
        0 <= o.insert_pos(p, child) <= o.kids(p).len(),
        cur.insert_pos(p, child) == o.insert_pos(p, child) + j,
{
    let ks = o.kids(n);
    let kp = o.kids(p);
    let k = ks[j];
    let pos = o.insert_pos(p, child);
    assert(o.node_wf(n));
    assert(o.kid_wf(n, j));
    assert(o.node_wf(k));
    assert(o.node_wf(p));
    assert(!exists|m: int| 0 <= m < j && ks[m] == k) by {
        if exists|m: int| 0 <= m < j && ks[m] == k {
            let m = choose|m: int| 0 <= m < j && ks[m] == k;
            assert(ks.no_duplicates());
        }
    }
    assert forall|m: int| 0 <= m < j implies !#[trigger] o.in_subtree(ks[m], k) by {
        o.lemma_sibling_subtrees_disjoint(n, j, m, k);
    }
    assert(!o.in_subtree(k, p)) by {
        if o.in_subtree(k, p) {
            lemma_below_kid(o, n, j, p);
        }
    }
    assert forall|m: int| 0 <= m < j implies !#[trigger] o.in_subtree(ks[m], p) by {
        if o.in_subtree(ks[m], p) {
            lemma_below_kid(o, n, m, p);
        }
    }
    assert(cur.anc(p) == o.anc(p));
    assert forall|x: int| #![trigger cur.in_subtree(k, x)]
        o.valid(x) implies cur.in_subtree(k, x) == o.in_subtree(k, x) by {
        if o.in_subtree(k, x) {
            assert forall|m: int| 0 <= m < j implies !#[trigger] o.in_subtree(ks[m], x) by {
                o.lemma_sibling_subtrees_disjoint(n, j, m, x);
            }
            assert(cur.anc(x) == o.anc(x));
        } else if exists|m: int| 0 <= m < j && #[trigger] o.in_subtree(ks[m], x) {
            assert(cur.anc(x) == o.anc(x).remove(n).union(o.anc(p).insert(p)));
            assert(!o.anc(p).contains(k));
        } else {
            assert(cur.anc(x) == o.anc(x));
        }
    }
    assert(cur.node_at(k).same_data(o.node_at(k)));
    match child {
        Some(c) => {
            let ci = c.obj as int;
            assert(o.node_wf(ci));
            assert(kp.contains(ci));
            assert(0 <= pos < kp.len() && kp[pos] == ci);
            assert(!exists|m: int| 0 <= m < j && ks[m] == ci) by {
                if exists|m: int| 0 <= m < j && ks[m] == ci {
                    let m = choose|m: int| 0 <= m < j && ks[m] == ci;
                    assert(o.kid_wf(n, m));
                }
            }
            assert(ci != k);
            let s = cur.kids(p);
            assert(s == spliced(kp, pos, ks.subrange(0, j)));
            assert(s[pos + j] == ci);
            assert(cur.node_wf(p));
            assert(s.contains(ci));
            let i = s.index_of(ci);
            assert(s[i] == ci);
            assert(s.no_duplicates());
            assert(i == pos + j);
        },
        None => {},
    }
}

/// Moving the `j`-th child of `n` keeps `moved_upto` going.
pub proof fn lemma_move_step<View>(
    new: &NodeArena<View>,
    mid: &NodeArena<View>,
    cur: &NodeArena<View>,
    o: &NodeArena<View>,
    n: int,
    p: int,
    child: Option<AbstractNode<View>>,
    j: int,
)
    requires
        can_move_kids(o, n, p, child),
        0 <= j < o.kids(n).len(),
        moved_upto(cur, o, n, p, child, j),
        mid.is_removal(cur, n, o.kids(n)[j]),
        new.is_addition(mid, p, o.kids(n)[j], mid.insert_pos(p, child)),
    ensures
        moved_upto(new, o, n, p, child, j + 1),
{
    let ks = o.kids(n);
    let kp = o.kids(p);
    let pos = o.insert_pos(p, child);
    let k = ks[j];
    lemma_move_ready(cur, o, n, p, child, j);
    assert(o.node_wf(n));
    // The children left to `n`.
    let rest = ks.subrange(j, ks.len() as int);
    assert(rest[0] == k);
    assert(rest.index_of(k) == 0) by {
        assert(rest.contains(k));
        let i = rest.index_of(k);
        assert(rest[i] == k);
        assert(ks[j + i] == k);
        assert(ks.no_duplicates());
    }
    assert(rest.remove(0) =~= ks.subrange(j + 1, ks.len() as int));
    assert(new.kids(n) == mid.kids(n));
    // The children of `p`.
    assert(mid.kids(p) == cur.kids(p));
    assert(mid.insert_pos(p, child) == pos + j);
    assert(spliced(kp, pos, ks.subrange(0, j)).insert(pos + j, k) =~= spliced(kp, pos, ks.subrange(0, j + 1)));
    // Parents.
    assert forall|x: int| #![trigger new.parent(x)]
        o.valid(x) implies new.parent(x) == if exists|m: int| 0 <= m < j + 1 && ks[m] == x { Some(p) } else { o.parent(x) } by {
        if x == k {
            assert(ks[j] == x);
        } else {
            assert(new.parent(x) == cur.parent(x));
            if exists|m: int| 0 <= m < j + 1 && ks[m] == x {
                let m = choose|m: int| 0 <= m < j + 1 && ks[m] == x;
                assert(m < j);
            }
        }
    }
    // Ancestors.
    assert(mid.anc(p) == cur.anc(p));
    assert forall|x: int| #![trigger new.anc(x)]
        o.valid(x) implies new.anc(x) == if exists|m: int| 0 <= m < j + 1 && #[trigger] o.in_subtree(ks[m], x) {
            o.anc(x).remove(n).union(o.anc(p).insert(p))
        } else {
            o.anc(x)
        } by {
        assert(new.anc(x) == mid.anc_after_add(p, k, x));
        assert(mid.anc(x) == cur.anc_after_remove(k, x));
        assert(cur.in_subtree(k, x) == o.in_subtree(k, x));
        if o.in_subtree(k, x) {
            assert forall|m: int| 0 <= m < j implies !#[trigger] o.in_subtree(ks[m], x) by {
                o.lemma_sibling_subtrees_disjoint(n, j, m, x);
            }
            assert(cur.anc(x) == o.anc(x));
            assert(mid.anc(x) =~= o.anc(x).remove(n));
            assert(mid.in_subtree(k, x));
            assert(exists|m: int| 0 <= m < j + 1 && #[trigger] o.in_subtree(ks[m], x));
        } else {
            assert(mid.anc(x) == cur.anc(x));
            assert(!mid.in_subtree(k, x));
            if exists|m: int| 0 <= m < j + 1 && #[trigger] o.in_subtree(ks[m], x) {
                let m = choose|m: int| 0 <= m < j + 1 && #[trigger] o.in_subtree(ks[m], x);
                assert(m != j);
                assert(exists|m: int| 0 <= m < j && #[trigger] o.in_subtree(ks[m], x));
            } else {
                assert(!exists|m: int| 0 <= m < j && #[trigger] o.in_subtree(ks[m], x));
            }
        }
    }
    assert forall|y: int| #![trigger new.kids(y)]
        o.valid(y) && y != p && y != n implies new.kids(y) == o.kids(y) by {
        assert(mid.kids(y) == cur.kids(y));
    }
    assert forall|x: int| #![trigger new.node_at(x)]
        o.valid(x) implies new.node_at(x).same_data(o.node_at(x)) by {
        assert(mid.node_at(x).same_data(cur.node_at(x)));
    }
}

/// Once every child of `n` has moved, `n` has lost its children to `p`.
pub proof fn lemma_move_done<View>(cur: &NodeArena<View>, o: &NodeArena<View>, n: int, p: int, child: Option<AbstractNode<View>>)
    requires
        can_move_kids(o, n, p, child),
        moved_upto(cur, o, n, p, child, o.kids(n).len() as int),
    ensures
        is_kids_move(cur, o, n, p, child),
{
    let ks = o.kids(n);
    assert(o.node_wf(n));
    assert(ks.subrange(0, ks.len() as int) =~= ks);
    assert(cur.kids(n) =~= Seq::<int>::empty());
    assert forall|x: int| #![trigger cur.parent(x)]
        o.valid(x) implies cur.parent(x) == if o.parent(x) == Some(n) { Some(p) } else { o.parent(x) } by {
        if o.parent(x) == Some(n) {
            assert(o.node_wf(x));
            let k = choose|k: int| 0 <= k < ks.len() && ks[k] == x;
            assert(exists|m: int| 0 <= m < ks.len() && ks[m] == x);
        } else if exists|m: int| 0 <= m < ks.len() && ks[m] == x {
            let m = choose|m: int| 0 <= m < ks.len() && ks[m] == x;
            assert(o.kid_wf(n, m));
        }
    }
    assert forall|x: int| #![trigger cur.anc(x)]
        o.valid(x) implies cur.anc(x) == anc_after_move(o, n, p, x) by {
        if o.anc(x).contains(n) {
            o.lemma_below_child(n, x);
            let c = choose|c: int| #[trigger] o.kids(n).contains(c) && o.in_subtree(c, x);
            let m = choose|m: int| 0 <= m < ks.len() && ks[m] == c;
            assert(o.in_subtree(ks[m], x));
        } else if exists|m: int| 0 <= m < ks.len() && #[trigger] o.in_subtree(ks[m], x) {
            let m = choose|m: int| 0 <= m < ks.len() && #[trigger] o.in_subtree(ks[m], x);
            lemma_below_kid(o, n, m, x);
        }
    }
}

} // verus!
